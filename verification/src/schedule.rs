//! Pushes and steals that overlap.
//!
//! A push works in three steps on the collector: it detaches the whole
//! chain, places its value in the chain it now holds alone, and links that
//! chain back in front of whatever the collector has come to hold in the
//! meantime. A steal detaches the whole chain and then yields its values one
//! at a time. Between any two of these steps, steps of other pushes and
//! steals may run.
//!
//! This file states what holds of every such schedule: no value is lost and
//! none is yielded twice, whatever the order of the steps.

use crate::chain::{inserted, lemma_inserted_packed, lemma_inserted_values, packed};
use vstd::multiset::Multiset;
use vstd::prelude::*;
use vstd::seq_lib::{lemma_flatten_concat, lemma_multiset_commutative};

verus! {

/// What a push or a steal that has begun holds for itself.
pub enum Op<T> {
    /// A push that has detached `chain` and has yet to place `val` in it.
    Detached { chain: Seq<Seq<T>>, val: T },
    /// A push that has placed its value and has yet to link `chain` back.
    Filled { chain: Seq<Seq<T>> },
    /// A push that has linked its chain back, and is done.
    Published,
    /// A steal: the values it has yielded, and those it has yet to yield.
    Drain { yielded: Seq<T>, rest: Seq<T> },
}

/// The collector with the pushes and steals begun on it so far.
pub struct System<T> {
    /// The blocks linked to the collector, head first.
    pub shared: Seq<Seq<T>>,
    /// Every push and steal begun so far, in the order in which they began.
    pub ops: Seq<Op<T>>,
}

/// One step of one push or steal.
pub enum Step<T> {
    /// A push of `val` begins: it detaches the collector's chain.
    Detach { val: T },
    /// The push numbered `op` places its value in the chain it holds.
    Fill { op: int },
    /// The push numbered `op` links its chain in front of the collector's.
    Publish { op: int },
    /// A steal begins: it detaches the collector's chain.
    Steal,
    /// The steal numbered `op` yields its next value, if it has one left.
    Next { op: int },
}

impl<T> Op<T> {
    /// The values that the push or steal holds or has yielded.
    pub open spec fn held(self) -> Multiset<T> {
        match self {
            Op::Detached { chain, val } => chain.flatten().to_multiset().insert(val),
            Op::Filled { chain } => chain.flatten().to_multiset(),
            Op::Published => Multiset::empty(),
            Op::Drain { yielded, rest } => yielded.to_multiset().add(rest.to_multiset()),
        }
    }

    /// The values that a steal has yielded so far; none for a push.
    pub open spec fn yielded(self) -> Seq<T> {
        match self {
            Op::Drain { yielded, rest } => yielded,
            _ => Seq::empty(),
        }
    }

    /// A push that is done, or a steal that has yielded all its values.
    pub open spec fn done(self) -> bool {
        match self {
            Op::Published => true,
            Op::Drain { yielded, rest } => rest.len() == 0,
            _ => false,
        }
    }

    /// Every block that the push holds has at least one value and at most `cap`.
    pub open spec fn packed(self, cap: int) -> bool {
        match self {
            Op::Detached { chain, val } => packed(chain, cap),
            Op::Filled { chain } => packed(chain, cap),
            _ => true,
        }
    }
}

impl<T> System<T> {
    /// The collector as it is made: no block, and nothing begun.
    pub open spec fn new() -> Self {
        System { shared: Seq::empty(), ops: Seq::empty() }
    }

    /// The state after one step. A step that names no push or steal in the
    /// state it needs changes nothing.
    pub open spec fn step(self, step: Step<T>, cap: int) -> Self {
        match step {
            Step::Detach { val } => System {
                shared: Seq::empty(),
                ops: self.ops.push(Op::Detached { chain: self.shared, val }),
            },
            Step::Fill { op } => if 0 <= op < self.ops.len() {
                match self.ops[op] {
                    Op::Detached { chain, val } => System {
                        shared: self.shared,
                        ops: self.ops.update(op, Op::Filled { chain: inserted(chain, val, cap) }),
                    },
                    _ => self,
                }
            } else {
                self
            },
            Step::Publish { op } => if 0 <= op < self.ops.len() {
                match self.ops[op] {
                    Op::Filled { chain } => System {
                        shared: chain + self.shared,
                        ops: self.ops.update(op, Op::Published),
                    },
                    _ => self,
                }
            } else {
                self
            },
            Step::Steal => System {
                shared: Seq::empty(),
                ops: self.ops.push(
                    Op::Drain { yielded: Seq::empty(), rest: self.shared.flatten() },
                ),
            },
            Step::Next { op } => if 0 <= op < self.ops.len() {
                match self.ops[op] {
                    Op::Drain { yielded, rest } => if rest.len() > 0 {
                        System {
                            shared: self.shared,
                            ops: self.ops.update(
                                op,
                                Op::Drain {
                                    yielded: yielded.push(rest[0]),
                                    rest: rest.drop_first(),
                                },
                            ),
                        }
                    } else {
                        self
                    },
                    _ => self,
                }
            } else {
                self
            },
        }
    }

    /// The state that a schedule leads to from the empty collector.
    pub open spec fn run(steps: Seq<Step<T>>, cap: int) -> Self
        decreases steps.len(),
    {
        if steps.len() == 0 {
            Self::new()
        } else {
            Self::run(steps.drop_last(), cap).step(steps.last(), cap)
        }
    }

    /// Every value in the system: those linked to the collector, those held
    /// by a push, and those that a steal holds or has yielded.
    pub open spec fn values(self) -> Multiset<T> {
        self.shared.flatten().to_multiset().add(held_by(self.ops))
    }

    /// Nothing is in progress and nothing is left: every push is done, every
    /// steal has yielded all its values, and the collector is empty.
    pub open spec fn drained(self) -> bool {
        &&& self.shared.len() == 0
        &&& forall|i: int| 0 <= i < self.ops.len() ==> (#[trigger] self.ops[i]).done()
    }

    /// Every block in the system has at least one value and at most `cap`.
    pub open spec fn packed(self, cap: int) -> bool {
        &&& packed(self.shared, cap)
        &&& forall|i: int| 0 <= i < self.ops.len() ==> (#[trigger] self.ops[i]).packed(cap)
    }
}

/// The values that the pushes and steals of `ops` hold or have yielded.
pub open spec fn held_by<T>(ops: Seq<Op<T>>) -> Multiset<T>
    decreases ops.len(),
{
    if ops.len() == 0 {
        Multiset::empty()
    } else {
        held_by(ops.drop_last()).add(ops.last().held())
    }
}

/// The values that the steals of `ops` have yielded.
pub open spec fn yielded_by<T>(ops: Seq<Op<T>>) -> Multiset<T>
    decreases ops.len(),
{
    if ops.len() == 0 {
        Multiset::empty()
    } else {
        yielded_by(ops.drop_last()).add(ops.last().yielded().to_multiset())
    }
}

/// The values of the pushes that a schedule begins.
pub open spec fn pushed<T>(steps: Seq<Step<T>>) -> Multiset<T>
    decreases steps.len(),
{
    if steps.len() == 0 {
        Multiset::empty()
    } else {
        match steps.last() {
            Step::Detach { val } => pushed(steps.drop_last()).insert(val),
            _ => pushed(steps.drop_last()),
        }
    }
}

proof fn lemma_held_by_push<T>(ops: Seq<Op<T>>, op: Op<T>)
    ensures
        held_by(ops.push(op)) == held_by(ops).add(op.held()),
{
    assert(ops.push(op).drop_last() =~= ops);
}

proof fn lemma_held_by_update<T>(ops: Seq<Op<T>>, i: int, op: Op<T>)
    requires
        0 <= i < ops.len(),
    ensures
        held_by(ops.update(i, op)).add(ops[i].held()) == held_by(ops).add(op.held()),
    decreases ops.len(),
{
    broadcast use vstd::multiset::group_multiset_axioms;

    let changed = ops.update(i, op);
    assert(changed.len() == ops.len());
    assert(held_by(changed) == held_by(changed.drop_last()).add(changed.last().held()));
    assert(held_by(ops) == held_by(ops.drop_last()).add(ops.last().held()));
    if i == ops.len() - 1 {
        assert(changed.drop_last() =~= ops.drop_last());
    } else {
        lemma_held_by_update(ops.drop_last(), i, op);
        assert(changed.drop_last() =~= ops.drop_last().update(i, op));
        let init = ops.drop_last();
        assert forall|v: T|
            held_by(changed).add(ops[i].held()).count(v) == held_by(ops).add(op.held()).count(
                v,
            ) by {
            assert(held_by(init.update(i, op)).add(init[i].held()).count(v) == held_by(init).add(
                op.held(),
            ).count(v));
        }
    }
    assert(held_by(changed).add(ops[i].held()) =~= held_by(ops).add(op.held()));
}

proof fn lemma_held_by_one<T>(ops: Seq<Op<T>>, i: int)
    requires
        0 <= i < ops.len(),
    ensures
        ops[i].held().subset_of(held_by(ops)),
    decreases ops.len(),
{
    broadcast use vstd::multiset::group_multiset_axioms;

    if i < ops.len() - 1 {
        lemma_held_by_one(ops.drop_last(), i);
    }
}

proof fn lemma_held_by_two<T>(ops: Seq<Op<T>>, i: int, j: int)
    requires
        0 <= i < j < ops.len(),
    ensures
        ops[i].held().add(ops[j].held()).subset_of(held_by(ops)),
    decreases ops.len(),
{
    broadcast use vstd::multiset::group_multiset_axioms;

    if j == ops.len() - 1 {
        lemma_held_by_one(ops.drop_last(), i);
    } else {
        lemma_held_by_two(ops.drop_last(), i, j);
    }
}

proof fn lemma_done_holds_yielded<T>(ops: Seq<Op<T>>)
    requires
        forall|i: int| 0 <= i < ops.len() ==> (#[trigger] ops[i]).done(),
    ensures
        held_by(ops) == yielded_by(ops),
    decreases ops.len(),
{
    broadcast use vstd::multiset::group_multiset_axioms;
    broadcast use vstd::seq_lib::group_to_multiset_ensures;

    if ops.len() > 0 {
        let init = ops.drop_last();
        assert forall|i: int| 0 <= i < init.len() implies (#[trigger] init[i]).done() by {
            assert(init[i] == ops[i]);
        }
        lemma_done_holds_yielded(init);
        let last = ops.last();
        assert(last.done());
        match last {
            Op::Drain { yielded, rest } => {
                assert(rest.to_multiset().len() == 0);
                assert(last.held() =~= yielded.to_multiset());
            },
            _ => {
                assert(Seq::<T>::empty().to_multiset().len() == 0);
                assert(last.held() =~= last.yielded().to_multiset());
            },
        }
    }
}

/// A step moves values and neither loses nor doubles one: the values in the
/// system after it are those before it, and the value of the push where the
/// step begins one.
pub proof fn lemma_step_conserves<T>(s: System<T>, step: Step<T>, cap: int)
    ensures
        s.step(step, cap).values() == match step {
            Step::Detach { val } => s.values().insert(val),
            _ => s.values(),
        },
{
    broadcast use vstd::multiset::group_multiset_axioms;
    broadcast use vstd::seq_lib::group_to_multiset_ensures;

    let after = s.step(step, cap);
    let none = Seq::<Seq<T>>::empty();
    assert(none.flatten() =~= Seq::<T>::empty());
    assert(Seq::<T>::empty().to_multiset().len() == 0);
    match step {
        Step::Detach { val } => {
            lemma_held_by_push(s.ops, Op::Detached { chain: s.shared, val });
            assert(after.values() =~= s.values().insert(val));
        },
        Step::Fill { op } => {
            if 0 <= op < s.ops.len() {
                match s.ops[op] {
                    Op::Detached { chain, val } => {
                        let filled = Op::Filled { chain: inserted(chain, val, cap) };
                        lemma_inserted_values(chain, val, cap);
                        lemma_held_by_update(s.ops, op, filled);
                        assert(filled.held() == s.ops[op].held());
                        assert forall|v: T| held_by(after.ops).count(v) == held_by(s.ops).count(
                            v,
                        ) by {
                            assert(held_by(after.ops).add(s.ops[op].held()).count(v) == held_by(
                                s.ops,
                            ).add(filled.held()).count(v));
                        }
                        assert(held_by(after.ops) =~= held_by(s.ops));
                    },
                    _ => {},
                }
            }
        },
        Step::Publish { op } => {
            if 0 <= op < s.ops.len() {
                match s.ops[op] {
                    Op::Filled { chain } => {
                        lemma_held_by_update(s.ops, op, Op::Published);
                        lemma_flatten_concat(chain, s.shared);
                        lemma_multiset_commutative(chain.flatten(), s.shared.flatten());
                        assert forall|v: T| after.values().count(v) == s.values().count(v) by {
                            assert(held_by(after.ops).add(s.ops[op].held()).count(v) == held_by(
                                s.ops,
                            ).add(Op::<T>::Published.held()).count(v));
                        }
                        assert(after.values() =~= s.values());
                    },
                    _ => {},
                }
            }
        },
        Step::Steal => {
            lemma_held_by_push(
                s.ops,
                Op::Drain { yielded: Seq::empty(), rest: s.shared.flatten() },
            );
            assert(after.values() =~= s.values());
        },
        Step::Next { op } => {
            if 0 <= op < s.ops.len() {
                match s.ops[op] {
                    Op::Drain { yielded, rest } => {
                        if rest.len() > 0 {
                            let moved = Op::Drain {
                                yielded: yielded.push(rest[0]),
                                rest: rest.drop_first(),
                            };
                            lemma_held_by_update(s.ops, op, moved);
                            assert(rest =~= seq![rest[0]] + rest.drop_first());
                            assert(seq![rest[0]] =~= Seq::<T>::empty().push(rest[0]));
                            lemma_multiset_commutative(seq![rest[0]], rest.drop_first());
                            assert(moved.held() =~= s.ops[op].held());
                            assert forall|v: T|
                                held_by(after.ops).count(v) == held_by(s.ops).count(v) by {
                                assert(held_by(after.ops).add(s.ops[op].held()).count(v)
                                    == held_by(s.ops).add(moved.held()).count(v));
                            }
                            assert(held_by(after.ops) =~= held_by(s.ops));
                        }
                    },
                    _ => {},
                }
            }
        },
    }
}

/// A push that no other step cuts into leaves the collector with the chain
/// that adding its value to the collector's chain gives.
pub proof fn lemma_push_in_one_piece<T>(s: System<T>, val: T, cap: int)
    ensures
        ({
            let op = s.ops.len() as int;
            let after = s.step(Step::Detach { val }, cap).step(Step::Fill { op }, cap).step(
                Step::Publish { op },
                cap,
            );
            &&& after.shared == inserted(s.shared, val, cap)
            &&& after.ops == s.ops.push(Op::Published)
        }),
{
    let op = s.ops.len() as int;
    let detached = s.step(Step::Detach { val }, cap);
    let filled = detached.step(Step::Fill { op }, cap);
    let after = filled.step(Step::Publish { op }, cap);
    assert(detached.ops[op] == Op::Detached { chain: s.shared, val });
    assert(filled.ops[op] == Op::<T>::Filled { chain: inserted(s.shared, val, cap) });
    assert(after.shared =~= inserted(s.shared, val, cap));
    assert(after.ops =~= s.ops.push(Op::Published));
}

/// A steal that begins takes every value linked to the collector at that
/// point, in the order of the chain, and leaves the collector empty.
pub proof fn lemma_steal_takes_all<T>(s: System<T>, cap: int)
    ensures
        s.step(Step::Steal, cap).shared == Seq::<Seq<T>>::empty(),
        s.step(Step::Steal, cap).ops.last() == (Op::Drain {
            yielded: Seq::empty(),
            rest: s.shared.flatten(),
        }),
{
}

/// A step keeps every block in the system within its bounds.
pub proof fn lemma_step_packed<T>(s: System<T>, step: Step<T>, cap: int)
    requires
        cap > 0,
        s.packed(cap),
    ensures
        s.step(step, cap).packed(cap),
{
    let after = s.step(step, cap);
    match step {
        Step::Fill { op } => {
            if 0 <= op < s.ops.len() {
                match s.ops[op] {
                    Op::Detached { chain, val } => {
                        assert(s.ops[op].packed(cap));
                        lemma_inserted_packed(chain, val, cap);
                    },
                    _ => {},
                }
            }
        },
        Step::Publish { op } => {
            if 0 <= op < s.ops.len() {
                assert(s.ops[op].packed(cap));
            }
        },
        _ => {},
    }
    assert forall|i: int| 0 <= i < after.ops.len() implies (#[trigger] after.ops[i]).packed(
        cap,
    ) by {
        if i < s.ops.len() {
            assert(s.ops[i].packed(cap));
        }
    }
}

/// Whatever the schedule, every block in the system holds at least one value
/// and at most a block's size.
pub proof fn lemma_run_packed<T>(steps: Seq<Step<T>>, cap: int)
    requires
        cap > 0,
    ensures
        System::run(steps, cap).packed(cap),
    decreases steps.len(),
{
    if steps.len() > 0 {
        lemma_run_packed(steps.drop_last(), cap);
        lemma_step_packed(System::run(steps.drop_last(), cap), steps.last(), cap);
    }
}

/// Whatever the schedule, and at every point of it, the values in the system
/// are exactly the values of the pushes begun: each is linked to the
/// collector, held by a push that has yet to link its chain back, or held or
/// yielded by one steal, as often as it was pushed.
pub proof fn lemma_run_conserves<T>(steps: Seq<Step<T>>, cap: int)
    ensures
        System::run(steps, cap).values() == pushed(steps),
    decreases steps.len(),
{
    broadcast use vstd::multiset::group_multiset_axioms;
    broadcast use vstd::seq_lib::group_to_multiset_ensures;

    if steps.len() == 0 {
        let none = Seq::<Seq<T>>::empty();
        assert(none.flatten() =~= Seq::<T>::empty());
        assert(Seq::<T>::empty().to_multiset().len() == 0);
        assert(System::<T>::new().values() =~= Multiset::empty());
    } else {
        lemma_run_conserves(steps.drop_last(), cap);
        lemma_step_conserves(System::run(steps.drop_last(), cap), steps.last(), cap);
    }
}

/// No loss and no duplication: once every push of a schedule is done, the
/// collector is empty and every steal has yielded all it holds, the values
/// yielded by all the steals together are exactly the values pushed, each as
/// often as it was pushed.
pub proof fn lemma_drained_yields_pushed<T>(steps: Seq<Step<T>>, cap: int)
    requires
        System::run(steps, cap).drained(),
    ensures
        yielded_by(System::run(steps, cap).ops) == pushed(steps),
        yielded_by(System::run(steps, cap).ops).len() == pushed(steps).len(),
{
    broadcast use vstd::multiset::group_multiset_axioms;
    broadcast use vstd::seq_lib::group_to_multiset_ensures;

    let end = System::run(steps, cap);
    lemma_run_conserves(steps, cap);
    lemma_done_holds_yielded(end.ops);
    assert(end.shared =~= Seq::<Seq<T>>::empty());
    assert(end.shared.flatten() =~= Seq::<T>::empty());
    assert(Seq::<T>::empty().to_multiset().len() == 0);
    assert(end.values() =~= held_by(end.ops));
}

/// Single ownership: two steals of one schedule never yield one pushed value
/// both. Counted with repeats, what the two have yielded of a value is at
/// most what was pushed of it.
pub proof fn lemma_steals_share_nothing<T>(steps: Seq<Step<T>>, cap: int, i: int, j: int, val: T)
    requires
        0 <= i < System::run(steps, cap).ops.len(),
        0 <= j < System::run(steps, cap).ops.len(),
        i != j,
    ensures
        System::run(steps, cap).ops[i].yielded().to_multiset().count(val) + System::run(
            steps,
            cap,
        ).ops[j].yielded().to_multiset().count(val) <= pushed(steps).count(val),
        pushed(steps).count(val) <= 1 ==> !(System::run(steps, cap).ops[i].yielded().contains(val)
            && System::run(steps, cap).ops[j].yielded().contains(val)),
{
    broadcast use vstd::multiset::group_multiset_axioms;
    broadcast use vstd::seq_lib::group_to_multiset_ensures;

    let end = System::run(steps, cap);
    lemma_run_conserves(steps, cap);
    if i < j {
        lemma_held_by_two(end.ops, i, j);
    } else {
        lemma_held_by_two(end.ops, j, i);
    }
    lemma_yielded_is_held(end.ops[i], val);
    lemma_yielded_is_held(end.ops[j], val);
    assert(end.ops[i].held().add(end.ops[j].held()).count(val) <= held_by(end.ops).count(val));
}

proof fn lemma_yielded_is_held<T>(op: Op<T>, val: T)
    ensures
        op.yielded().to_multiset().count(val) <= op.held().count(val),
        op.yielded().contains(val) ==> op.yielded().to_multiset().count(val) >= 1,
{
    broadcast use vstd::multiset::group_multiset_axioms;
    broadcast use vstd::seq_lib::group_to_multiset_ensures;

    assert(Seq::<T>::empty().to_multiset().len() == 0);
}

} // verus!
