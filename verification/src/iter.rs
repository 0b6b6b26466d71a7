//! The drain sequence over a detached chain.

use crate::chain::{blocks, Block, Chain};
use vstd::prelude::*;
use vstd::std_specs::iter::IteratorSpecImpl;

verus! {

/// An iterator owning the collected values.
///
/// It yields the values of the chain it was made from, block by block from
/// the head and in slot order within a block, each value once. A block is
/// released as soon as the iterator has moved past it.
pub struct Iter<T, const B: usize> {
    curr: Chain<T, B>,
}

impl<T, const B: usize> View for Iter<T, B> {
    type V = Seq<T>;

    /// The values still to be yielded, in the order in which they come: those
    /// of the blocks held, block by block.
    open spec fn view(&self) -> Seq<T> {
        self.held().flatten()
    }
}

impl<T, const B: usize> Iter<T, B> {
    /// The blocks that the iterator still owns, head first, each as the
    /// sequence of the values left in it. The block at the head may have
    /// none left; it is released when the iterator moves past it.
    pub closed spec fn held(&self) -> Seq<Seq<T>> {
        blocks(self.curr)
    }

    /// Makes the drain sequence that owns `chain`.
    pub fn new(chain: Chain<T, B>) -> (iter: Self)
        ensures
            iter.held() == blocks(chain),
            iter@ == blocks(chain).flatten(),
    {
        Iter { curr: chain }
    }

    /// Drops the values not yet yielded, and releases their blocks one after
    /// another. Afterwards the iterator owns no value and no block.
    pub fn finish(&mut self)
        ensures
            final(self).held().len() == 0,
            final(self)@ == Seq::<T>::empty(),
        opens_invariants none
        no_unwind
    {
        loop
            ensures
                self.curr is None,
            decreases blocks(self.curr).len(),
        {
            let mut taken: Chain<T, B> = None;
            core::mem::swap(&mut self.curr, &mut taken);
            match taken {
                None => {
                    break ;
                },
                Some(block) => {
                    proof {
                        assert(blocks(Some(block)).drop_first() =~= blocks(block.behind()));
                    }
                    self.curr = Block::unlink(block);
                },
            }
        }
        proof {
            assert(blocks(self.curr).flatten() =~= Seq::<T>::empty());
        }
    }
}

impl<T, const B: usize> Drop for Iter<T, B> {
    /// Dropping the iterator drops the values not yet yielded and releases
    /// their blocks one after another, as `finish` does: nothing is left to
    /// be released by the drops of the links, however long the chain.
    fn drop(&mut self)
        ensures
            final(self).held().len() == 0,
            final(self)@ == Seq::<T>::empty(),
        opens_invariants none
        no_unwind
    {
        self.finish();
    }
}

impl<T, const B: usize> Iterator for Iter<T, B> {
    type Item = T;

    /// Moves the next value out of the chain: the first value left in the
    /// block at the head. Blocks that have no value left are released on
    /// the way, so that an iterator that has come to its end owns no block.
    fn next(&mut self) -> (ret: Option<T>)
        ensures
            old(self)@.len() > 0 ==> ret == Some(old(self)@[0]) && final(self)@ == old(
                self,
            )@.drop_first(),
            old(self)@.len() == 0 ==> ret is None && final(self)@ == old(self)@,
            ret is None ==> final(self).held().len() == 0,
    {
        loop
            invariant
                self@ == old(self)@,
            decreases blocks(self.curr).len(),
        {
            let ghost here = blocks(self.curr);
            match self.curr.take() {
                None => {
                    return None;
                },
                Some(mut block) => {
                    let ghost behind = blocks(block.behind());
                    proof {
                        assert(here.drop_first() =~= behind);
                    }
                    match block.pop_value() {
                        Some(val) => {
                            self.curr = Some(block);
                            proof {
                                let now = blocks(self.curr);
                                assert(now.drop_first() =~= behind);
                                assert(now.flatten() =~= here.flatten().drop_first());
                            }
                            return Some(val);
                        },
                        None => {
                            self.curr = Block::unlink(block);
                            proof {
                                assert(here.flatten() =~= behind.flatten());
                            }
                        },
                    }
                },
            }
        }
    }
}

impl<T, const B: usize> IteratorSpecImpl for Iter<T, B> {
    open spec fn obeys_prophetic_iter_laws(&self) -> bool {
        true
    }

    open spec fn remaining(&self) -> Seq<T> {
        self@
    }

    open spec fn will_return_none(&self) -> bool {
        true
    }

    open spec fn decrease(&self) -> Option<nat> {
        Some(self@.len())
    }

    open spec fn initial_value_relation(&self, init: &Self) -> bool {
        init@ == self@
    }

    open spec fn peek(&self, index: int) -> Option<T> {
        if 0 <= index < self@.len() {
            Some(self@[index])
        } else {
            None
        }
    }
}

} // verus!
