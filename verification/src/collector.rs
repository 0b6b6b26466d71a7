//! The collector: the head of the chain that pushes grow and steals detach.

use crate::chain::{append, blocks, fill_counts, insert, inserted, packed, Chain};
use crate::iter::Iter;
use core::mem::ManuallyDrop;
use vstd::prelude::*;

verus! {

/// A blocked stealing collector.
///
/// Dropping the collector will leak any uncollected values.
pub struct Collector<T, const B: usize> {
    top: ManuallyDrop<Chain<T, B>>,
}

impl<T, const B: usize> View for Collector<T, B> {
    type V = Seq<Seq<T>>;

    /// The blocks linked to the collector, head first.
    closed spec fn view(&self) -> Seq<Seq<T>> {
        blocks(self.top@)
    }
}

impl<T, const B: usize> Collector<T, B> {
    #[verifier::type_invariant]
    spec fn inv(self) -> bool {
        B > 0 && packed(blocks(self.top@), B as int)
    }

    /// The block size is positive, and every block holds at least one value
    /// and at most a block's size.
    pub open spec fn wf(&self) -> bool {
        B > 0 && packed(self@, B as int)
    }

    /// Create an empty collector without allocating any blocks.
    pub fn new() -> (collector: Self)
        requires
            B > 0,
        ensures
            collector@ == Seq::<Seq<T>>::empty(),
            collector.wf(),
    {
        Collector { top: ManuallyDrop::new(None) }
    }

    /// The number of values in each block linked to the collector, head
    /// first.
    pub fn counts(&self) -> (counts: Vec<usize>)
        ensures
            counts@.len() == self@.len(),
            forall|i: int| 0 <= i < counts@.len() ==> counts@[i] == (#[trigger] self@[i]).len(),
    {
        fill_counts(&self.top)
    }

    /// Detaches the whole chain from the collector and leaves it empty.
    pub fn take(&mut self) -> (chain: Chain<T, B>)
        ensures
            blocks(chain) == old(self)@,
            packed(blocks(chain), B as int),
            final(self)@ == Seq::<Seq<T>>::empty(),
            final(self).wf(),
    {
        proof {
            use_type_invariant(&*self);
        }
        let mut held: ManuallyDrop<Chain<T, B>> = ManuallyDrop::new(None);
        core::mem::swap(&mut self.top, &mut held);
        ManuallyDrop::into_inner(held)
    }

    /// Links a chain held privately in front of the chain of the collector.
    ///
    /// The last block of `new_top` is linked to whatever the collector holds
    /// by now, and the head of `new_top` becomes the head of the collector,
    /// so that no block linked in the meantime is lost.
    pub fn update(&mut self, new_top: Chain<T, B>)
        requires
            packed(blocks(new_top), B as int),
        ensures
            final(self)@ == blocks(new_top) + old(self)@,
            final(self).wf(),
    {
        let mut new_top = new_top;
        let old_top = self.take();
        append(&mut new_top, old_top);
        self.top = ManuallyDrop::new(new_top);
    }

    /// Push a value into the collector.
    ///
    /// The chain is detached, the value is placed in the first block with a
    /// spare slot, or in a new block at the head where there is none, and the
    /// chain is linked back.
    pub fn push(&mut self, val: T)
        ensures
            final(self)@ == inserted(old(self)@, val, B as int),
            final(self).wf(),
    {
        let mut chain = self.take();
        insert(&mut chain, val);
        self.update(chain);
        proof {
            assert(blocks(chain) + Seq::<Seq<T>>::empty() =~= blocks(chain));
        }
    }

    /// Collect the values into an iterator.
    ///
    /// The whole chain is detached at once and handed to the iterator, which
    /// yields its values block by block from the head. Dropping the iterator
    /// will drop the remaining collected values.
    pub fn collect(&mut self) -> (iter: Iter<T, B>)
        ensures
            iter.held() == old(self)@,
            iter@ == old(self)@.flatten(),
            final(self)@ == Seq::<Seq<T>>::empty(),
            final(self).wf(),
    {
        let old_top = self.take();
        Iter::new(old_top)
    }
}

} // verus!
