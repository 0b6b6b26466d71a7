use std::rc::Rc;

use lockfree_collector::chain::{insert, last_link, Chain};
use lockfree_collector::{Collector, Iter};

#[test]
fn values_come_block_by_block_in_slot_order() {
    let mut collector = Collector::<u32, 3>::new();
    for num in 0..8 {
        collector.push(num);
    }
    let mut iter = collector.collect();
    for expected in [6, 7, 3, 4, 5, 0, 1, 2] {
        assert_eq!(iter.next(), Some(expected));
    }
    assert_eq!(iter.next(), None);
    assert_eq!(iter.next(), None);
}

#[test]
fn iterator_over_no_chain_is_empty() {
    let mut iter = Iter::<u32, 4>::new(None);
    assert_eq!(iter.next(), None);
    assert_eq!(iter.next(), None);
}

#[test]
fn iterator_over_a_chain_held_privately() {
    let mut chain: Chain<u32, 2> = None;
    insert(&mut chain, 1);
    insert(&mut chain, 2);
    insert(&mut chain, 3);
    let items: Vec<u32> = Iter::new(chain).collect();
    assert_eq!(items, vec![3, 1, 2]);
}

#[test]
fn a_drained_iterator_gets_nothing_of_later_pushes() {
    let mut collector = Collector::<u32, 2>::new();
    collector.push(1);
    let mut iter = collector.collect();
    assert_eq!(iter.next(), Some(1));
    assert_eq!(iter.next(), None);
    collector.push(2);
    assert_eq!(iter.next(), None);
    assert_eq!(collector.collect().next(), Some(2));
}

#[test]
fn dropping_the_iterator_drops_the_rest() {
    let probe = Rc::new(());
    let mut collector = Collector::<Rc<()>, 3>::new();
    for _ in 0..10 {
        collector.push(Rc::clone(&probe));
    }
    assert_eq!(Rc::strong_count(&probe), 11);

    let mut iter = collector.collect();
    let first = iter.next();
    let second = iter.next();
    assert!(first.is_some() && second.is_some());
    assert_eq!(Rc::strong_count(&probe), 11);

    drop(iter);
    assert_eq!(Rc::strong_count(&probe), 3);
    drop(first);
    drop(second);
    assert_eq!(Rc::strong_count(&probe), 1);
}

#[test]
fn finish_drops_the_rest_at_once() {
    let probe = Rc::new(());
    let mut collector = Collector::<Rc<()>, 2>::new();
    for _ in 0..5 {
        collector.push(Rc::clone(&probe));
    }
    let mut iter = collector.collect();
    let first = iter.next();
    assert!(first.is_some());
    iter.finish();
    assert_eq!(Rc::strong_count(&probe), 2);
    assert!(iter.next().is_none());
}

#[test]
fn dropping_a_long_chain_does_not_exhaust_the_stack() {
    let mut collector = Collector::<u32, 1>::new();
    let mut chain: Chain<u32, 1> = collector.take();
    for num in 0..200_000 {
        // Every block is full, so each value opens a block at the head.
        let mut head: Chain<u32, 1> = None;
        insert(&mut head, num);
        *last_link(&mut head) = chain;
        chain = head;
    }
    collector.update(chain);
    let mut iter = collector.collect();
    assert_eq!(iter.next(), Some(199_999));
    drop(iter);
}

#[test]
fn dropping_a_drained_iterator_drops_nothing() {
    let probe = Rc::new(());
    let mut collector = Collector::<Rc<()>, 2>::new();
    for _ in 0..3 {
        collector.push(Rc::clone(&probe));
    }
    let mut iter = collector.collect();
    let items: Vec<Rc<()>> = iter.by_ref().collect();
    assert_eq!(items.len(), 3);
    assert!(iter.next().is_none());
    assert_eq!(Rc::strong_count(&probe), 4);
    drop(iter);
    assert_eq!(Rc::strong_count(&probe), 4);
}
