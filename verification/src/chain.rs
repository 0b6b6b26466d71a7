//! Blocks of values and the chains they form.
//!
//! A chain is a singly linked list of blocks, owned through its head. In
//! contracts a chain stands for the sequence of its blocks, head first, each
//! block being the sequence of its values in slot order.

use std::collections::VecDeque;
use vstd::multiset::Multiset;
use vstd::prelude::*;
use vstd::seq_lib::{lemma_flatten_concat, lemma_multiset_commutative};

verus! {

/// A buffer of values and the link to the block behind it.
///
/// The values are the live slots of the block, in slot order. A block is made
/// with room for `B` values and never holds more.
pub struct Block<T, const B: usize> {
    next: Option<Box<Block<T, B>>>,
    vals: VecDeque<T>,
}

/// A chain of blocks, owned as a whole by whoever holds its head.
pub type Chain<T, const B: usize> = Option<Box<Block<T, B>>>;

impl<T, const B: usize> Block<T, B> {
    /// The values in the block, in slot order.
    pub closed spec fn values(&self) -> Seq<T> {
        self.vals@
    }

    /// The chain linked behind the block.
    pub closed spec fn behind(&self) -> Chain<T, B> {
        self.next
    }

    /// Moves the value of the first live slot out of the block, if one is left.
    pub fn pop_value(&mut self) -> (val: Option<T>)
        ensures
            final(self).behind() == old(self).behind(),
            match val {
                Some(v) => {
                    &&& old(self).values().len() > 0
                    &&& v == old(self).values()[0]
                    &&& final(self).values() == old(self).values().drop_first()
                },
                None => {
                    &&& old(self).values().len() == 0
                    &&& final(self).values() == old(self).values()
                },
            },
    {
        self.vals.pop_front()
    }

    /// The link to the chain behind the block, to read or to set.
    pub fn link(&mut self) -> (link: &mut Chain<T, B>)
        ensures
            *link == old(self).behind(),
            final(self).behind() == *final(link),
            final(self).values() == old(self).values(),
    {
        &mut self.next
    }

    /// Releases the block and hands out the chain that was linked behind it.
    pub fn unlink(block: Box<Self>) -> (rest: Chain<T, B>)
        ensures
            rest == block.behind(),
        opens_invariants none
        no_unwind
    {
        let inner = *block;
        inner.next
    }
}

/// The blocks of a chain, head first, each as the sequence of its values.
pub open spec fn blocks<T, const B: usize>(top: Chain<T, B>) -> Seq<Seq<T>>
    decreases top,
{
    match top {
        None => Seq::empty(),
        Some(block) => seq![block.values()] + blocks(block.behind()),
    }
}

/// Every block holds at least one value and at most `cap`.
pub open spec fn packed<T>(bs: Seq<Seq<T>>, cap: int) -> bool {
    forall|i: int| 0 <= i < bs.len() ==> 1 <= #[trigger] bs[i].len() <= cap
}

/// The index of the first block with fewer than `cap` values, or the number
/// of blocks where every block is full.
pub open spec fn first_free<T>(bs: Seq<Seq<T>>, cap: int) -> int
    decreases bs.len(),
{
    if bs.len() == 0 || bs[0].len() < cap {
        0
    } else {
        1 + first_free(bs.subrange(1, bs.len() as int), cap)
    }
}

/// The chain after one value is added: it goes behind the values of the first
/// block with room, or, where no block has room, into a new block at the
/// head.
pub open spec fn inserted<T>(bs: Seq<Seq<T>>, val: T, cap: int) -> Seq<Seq<T>> {
    let i = first_free(bs, cap);
    if i < bs.len() {
        bs.update(i, bs[i].push(val))
    } else {
        seq![seq![val]] + bs
    }
}

/// What the first free index is: every block before it is full, and it has
/// room itself unless it lies behind the last block.
pub proof fn lemma_first_free<T>(bs: Seq<Seq<T>>, cap: int)
    ensures
        0 <= first_free(bs, cap) <= bs.len(),
        forall|j: int| 0 <= j < first_free(bs, cap) ==> (#[trigger] bs[j]).len() >= cap,
        first_free(bs, cap) < bs.len() ==> bs[first_free(bs, cap)].len() < cap,
    decreases bs.len(),
{
    if bs.len() == 0 || bs[0].len() < cap {
    } else {
        let tail = bs.subrange(1, bs.len() as int);
        lemma_first_free(tail, cap);
        assert forall|j: int| 0 <= j < first_free(bs, cap) implies (#[trigger] bs[j]).len()
            >= cap by {
            if j > 0 {
                assert(bs[j] == tail[j - 1]);
            }
        }
        if first_free(tail, cap) < tail.len() {
            assert(tail[first_free(tail, cap)] == bs[first_free(bs, cap)]);
        }
    }
}

/// Adding a value keeps every block within its bounds.
pub proof fn lemma_inserted_packed<T>(bs: Seq<Seq<T>>, val: T, cap: int)
    requires
        cap > 0,
        packed(bs, cap),
    ensures
        packed(inserted(bs, val, cap), cap),
{
    lemma_first_free(bs, cap);
}

/// Adding a value adds it to the values of the chain once, and nothing else.
pub proof fn lemma_inserted_values<T>(bs: Seq<Seq<T>>, val: T, cap: int)
    ensures
        inserted(bs, val, cap).flatten().to_multiset() == bs.flatten().to_multiset().insert(val),
{
    broadcast use vstd::multiset::group_multiset_axioms;
    broadcast use vstd::seq_lib::group_to_multiset_ensures;

    lemma_first_free(bs, cap);
    let i = first_free(bs, cap);
    let one = seq![val];
    assert(one =~= Seq::<T>::empty().push(val));
    assert(one.to_multiset() =~= Multiset::<T>::empty().insert(val));
    if i < bs.len() {
        let front = bs.take(i);
        let back = bs.skip(i + 1);
        let grown = bs[i].push(val);
        assert(bs =~= front + seq![bs[i]] + back);
        assert(bs.update(i, grown) =~= front + seq![grown] + back);
        lemma_flatten_concat(front + seq![bs[i]], back);
        lemma_flatten_concat(front, seq![bs[i]]);
        lemma_flatten_concat(front + seq![grown], back);
        lemma_flatten_concat(front, seq![grown]);
        seq![bs[i]].lemma_flatten_one_element();
        seq![grown].lemma_flatten_one_element();
        let a = front.flatten();
        let c = back.flatten();
        assert(grown =~= bs[i] + one);
        lemma_multiset_commutative(a + bs[i], c);
        lemma_multiset_commutative(a, bs[i]);
        lemma_multiset_commutative(a + grown, c);
        lemma_multiset_commutative(a, grown);
        lemma_multiset_commutative(bs[i], one);
        assert(inserted(bs, val, cap).flatten().to_multiset() =~= bs.flatten().to_multiset().insert(
            val,
        ));
    } else {
        lemma_flatten_concat(seq![one], bs);
        seq![one].lemma_flatten_one_element();
        lemma_multiset_commutative(one, bs.flatten());
        assert(inserted(bs, val, cap).flatten().to_multiset() =~= bs.flatten().to_multiset().insert(
            val,
        ));
    }
}

/// The chain after the values of `vals` are added one after another.
pub open spec fn inserted_all<T>(bs: Seq<Seq<T>>, vals: Seq<T>, cap: int) -> Seq<Seq<T>>
    decreases vals.len(),
{
    if vals.len() == 0 {
        bs
    } else {
        inserted(inserted_all(bs, vals.drop_last(), cap), vals.last(), cap)
    }
}

/// Values added to an empty chain fill one block as long as it has room.
pub proof fn lemma_first_block_fills<T>(vals: Seq<T>, cap: int)
    requires
        1 <= vals.len() <= cap,
    ensures
        inserted_all(Seq::<Seq<T>>::empty(), vals, cap) == seq![vals],
    decreases vals.len(),
{
    let none = Seq::<Seq<T>>::empty();
    let init = vals.drop_last();
    if vals.len() == 1 {
        assert(inserted_all(none, init, cap) == none);
        assert(inserted(none, vals.last(), cap) =~= seq![seq![vals.last()]]);
        assert(seq![vals.last()] =~= vals);
    } else {
        lemma_first_block_fills(init, cap);
        assert(init.push(vals.last()) =~= vals);
        assert(seq![init].update(0, vals) =~= seq![vals]);
    }
}

/// Block packing: one value more than a block holds, added to an empty chain,
/// leaves exactly two blocks. The block at the head holds the last value
/// alone, and the block behind it is full with the values before.
pub proof fn lemma_block_packing<T>(vals: Seq<T>, cap: int)
    requires
        cap > 0,
        vals.len() == cap + 1,
    ensures
        inserted_all(Seq::<Seq<T>>::empty(), vals, cap) == seq![
            seq![vals[cap]],
            vals.take(cap),
        ],
        inserted_all(Seq::<Seq<T>>::empty(), vals, cap).len() == 2,
        inserted_all(Seq::<Seq<T>>::empty(), vals, cap)[0].len() == 1,
        inserted_all(Seq::<Seq<T>>::empty(), vals, cap)[1].len() == cap,
{
    let init = vals.drop_last();
    lemma_first_block_fills(init, cap);
    assert(init =~= vals.take(cap));
    let full = seq![init];
    assert(full.subrange(1, 1) =~= Seq::<Seq<T>>::empty());
    assert(first_free(full.subrange(1, 1), cap) == 0);
    assert(first_free(full, cap) == 1);
    assert(seq![seq![vals[cap]]] + full =~= seq![seq![vals[cap]], vals.take(cap)]);
}

/// Adds a value to a chain held privately.
///
/// The chain is searched from its head for the first block with a spare slot,
/// and the value is written behind the values of that block. Where the chain
/// is empty or every block is full, a new block that holds the value alone
/// becomes the head, linked to the former head.
pub fn insert<T, const B: usize>(top: &mut Chain<T, B>, val: T)
    requires
        B > 0,
        packed(blocks(*old(top)), B as int),
    ensures
        blocks(*final(top)) == inserted(blocks(*old(top)), val, B as int),
        packed(blocks(*final(top)), B as int),
{
    let ghost before = blocks(*top);
    let ghost mut skipped: int = 0;
    let mut pending = Some(val);
    let mut curr = &mut *top;
    proof {
        assert(before.subrange(0, before.len() as int) =~= before);
        assert(before.subrange(0, 0) + blocks(*final(curr)) =~= blocks(*final(curr)));
    }
    loop
        invariant_except_break
            pending == Some(val),
            blocks(*curr) == before.subrange(skipped, before.len() as int),
            first_free(before, B as int) == skipped + first_free(blocks(*curr), B as int),
            blocks(after_borrow(*top)) == before.subrange(0, skipped) + blocks(*final(curr)),
        invariant
            0 <= skipped <= before.len(),
        ensures
            pending is None ==> blocks(after_borrow(*top)) == inserted(before, val, B as int),
            pending is Some ==> pending == Some(val) && blocks(after_borrow(*top)) == before
                && first_free(before, B as int) == before.len(),
        decreases before.len() - skipped,
    {
        let ghost here = blocks(*curr);
        match curr {
            None => {
                proof {
                    assert(before.subrange(0, skipped) + Seq::<Seq<T>>::empty() =~= before);
                }
                break ;
            },
            Some(block) => {
                let ghost behind = blocks(block.next);
                proof {
                    assert(here[0] == block.vals@);
                    assert(here.subrange(1, here.len() as int) =~= behind);
                    assert(behind =~= before.subrange(skipped + 1, before.len() as int));
                }
                if block.vals.len() < B {
                    match pending.take() {
                        Some(v) => {
                            block.vals.push_back(v);
                        },
                        None => {},
                    }
                    proof {
                        assert(blocks(*final(curr)) =~= here.update(0, here[0].push(val)));
                        assert(before.subrange(0, skipped) + here.update(0, here[0].push(val))
                            =~= before.update(skipped, before[skipped].push(val)));
                    }
                    break ;
                }
                curr = &mut block.next;
                proof {
                    assert(before.subrange(0, skipped) + (seq![here[0]] + blocks(*final(curr)))
                        =~= before.subrange(0, skipped + 1) + blocks(*final(curr)));
                    skipped = skipped + 1;
                }
            },
        }
    }
    match pending {
        Some(v) => {
            let old_top = top.take();
            let mut vals: VecDeque<T> = VecDeque::with_capacity(B);
            vals.push_back(v);
            *top = Some(Box::new(Block { next: old_top, vals }));
            proof {
                assert(vals@ =~= seq![val]);
            }
        },
        None => {},
    }
    proof {
        lemma_inserted_packed(before, val, B as int);
    }
}

/// The number of values in each block of a chain, head first.
pub fn fill_counts<T, const B: usize>(top: &Chain<T, B>) -> (counts: Vec<usize>)
    ensures
        counts@.len() == blocks(*top).len(),
        forall|i: int| 0 <= i < counts@.len() ==> counts@[i] == (#[trigger] blocks(*top)[i]).len(),
{
    let ghost all = blocks(*top);
    let mut counts: Vec<usize> = Vec::new();
    let mut curr = top;
    loop
        invariant
            counts@.len() <= all.len(),
            blocks(*curr) == all.subrange(counts@.len() as int, all.len() as int),
            forall|i: int| 0 <= i < counts@.len() ==> counts@[i] == (#[trigger] all[i]).len(),
        ensures
            counts@.len() == all.len(),
        decreases all.len() - counts@.len(),
    {
        match curr {
            None => {
                break ;
            },
            Some(block) => {
                let ghost here = blocks(*curr);
                proof {
                    assert(here[0] == block.values());
                    assert(here.subrange(1, here.len() as int) =~= blocks(block.next));
                    assert(blocks(block.next) =~= all.subrange(
                        counts@.len() as int + 1,
                        all.len() as int,
                    ));
                }
                counts.push(block.vals.len());
                curr = &block.next;
            },
        }
    }
    counts
}

/// Finds the open link at the end of a chain: the place that a chain linked
/// behind the last block is written to.
pub fn last_link<T, const B: usize>(top: &mut Chain<T, B>) -> (last: &mut Chain<T, B>)
    ensures
        *last is None,
        blocks(*final(top)) == blocks(*old(top)) + blocks(*final(last)),
{
    let ghost before = blocks(*top);
    let ghost mut passed: int = 0;
    let mut curr = top;
    proof {
        assert(before.subrange(0, before.len() as int) =~= before);
        assert(before.subrange(0, 0) + blocks(*final(curr)) =~= blocks(*final(curr)));
    }
    while curr.is_some()
        invariant
            0 <= passed <= before.len(),
            blocks(*curr) == before.subrange(passed, before.len() as int),
            blocks(*final(top)) == before.subrange(0, passed) + blocks(*final(curr)),
        decreases before.len() - passed,
    {
        let ghost here = blocks(*curr);
        curr = &mut curr.as_mut().unwrap().next;
        proof {
            assert(here.subrange(1, here.len() as int) =~= blocks(*curr));
            assert(before.subrange(0, passed) + (seq![here[0]] + blocks(*final(curr)))
                =~= before.subrange(0, passed + 1) + blocks(*final(curr)));
            passed = passed + 1;
        }
    }
    proof {
        assert(before.subrange(0, passed) =~= before);
    }
    curr
}

/// Links a chain behind the last block of another.
pub fn append<T, const B: usize>(top: &mut Chain<T, B>, behind: Chain<T, B>)
    ensures
        blocks(*final(top)) == blocks(*old(top)) + blocks(behind),
{
    let last = last_link(top);
    *last = behind;
}

} // verus!
