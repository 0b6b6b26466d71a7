use std::rc::Rc;

use lockfree_collector::chain::{fill_counts, insert, Chain};
use lockfree_collector::Collector;

#[test]
fn it_works_single_thread() {
    let mut collector = Collector::<String, 30>::new();

    for num in 0..100 {
        collector.push(num.to_string());
    }

    let sum = collector
        .collect()
        .map(|txt| txt.parse::<i32>())
        .sum::<Result<i32, _>>()
        .unwrap();

    assert_eq!(sum, 99 * 100 / 2);
}

#[test]
fn it_works_multiple_threads() {
    let mut collector = Collector::<String, 30>::new();

    // Thirty pushers take turns, one push after another.
    for num in 0..10 {
        for _ in 0..30 {
            collector.push(num.to_string());
        }
    }

    let sum = collector
        .collect()
        .map(|txt| txt.parse::<i32>())
        .sum::<Result<i32, _>>()
        .unwrap();

    assert_eq!(sum, 30 * 9 * 10 / 2);
}

#[test]
fn collect_incrementally() {
    let mut collector = Collector::<String, 30>::new();

    let mut sum = 0;

    // Thirty pushers overlap in each round, and a steal runs while half of
    // them still hold their chains.
    for num in 0..100 {
        let mut held: Vec<Chain<String, 30>> = Vec::new();
        for _ in 0..30 {
            held.push(collector.take());
        }
        for chain in held.iter_mut() {
            insert(chain, num.to_string());
        }
        let late = held.split_off(15);
        for chain in held {
            collector.update(chain);
        }
        if num == 50 {
            sum += collector
                .collect()
                .map(|txt| txt.parse::<i32>())
                .sum::<Result<i32, _>>()
                .unwrap();
        }
        for chain in late {
            collector.update(chain);
        }
    }

    sum += collector
        .collect()
        .map(|txt| txt.parse::<i32>())
        .sum::<Result<i32, _>>()
        .unwrap();

    assert_eq!(sum, 30 * 99 * 100 / 2);
}

#[test]
fn thirty_pushers_of_ten_values_yield_three_hundred() {
    let mut collector = Collector::<String, 30>::new();

    // Thirty pushes overlap in each round: all detach, then all place their
    // value, then all link their chain back.
    for num in 0..10 {
        let mut held: Vec<Chain<String, 30>> = Vec::new();
        for _ in 0..30 {
            held.push(collector.take());
        }
        for chain in held.iter_mut() {
            insert(chain, num.to_string());
        }
        for chain in held {
            collector.update(chain);
        }
    }

    let items: Vec<String> = collector.collect().collect();
    assert_eq!(items.len(), 300);
    let sum: i32 = items.iter().map(|txt| txt.parse::<i32>().unwrap()).sum();
    assert_eq!(sum, 1350);
}

#[test]
fn new_collector_holds_no_block() {
    let mut collector = Collector::<u32, 4>::new();
    assert_eq!(collector.counts(), Vec::<usize>::new());
    assert_eq!(collector.collect().next(), None);
    assert_eq!(collector.counts(), Vec::<usize>::new());
}

#[test]
fn block_packing() {
    let mut collector = Collector::<u32, 3>::new();
    for num in 0..3 {
        collector.push(num);
        assert_eq!(collector.counts(), vec![num as usize + 1]);
    }
    collector.push(3);
    assert_eq!(collector.counts(), vec![1, 3]);

    let items: Vec<u32> = collector.collect().collect();
    assert_eq!(items, vec![3, 0, 1, 2]);
}

#[test]
fn block_packing_with_blocks_of_one() {
    let mut collector = Collector::<u32, 1>::new();
    collector.push(7);
    collector.push(8);
    assert_eq!(collector.counts(), vec![1, 1]);
    let items: Vec<u32> = collector.collect().collect();
    assert_eq!(items, vec![8, 7]);
}

#[test]
fn a_full_head_gets_a_new_block_in_front() {
    let mut collector = Collector::<u32, 2>::new();
    for num in 0..5 {
        collector.push(num);
    }
    assert_eq!(collector.counts(), vec![1, 2, 2]);
    let items: Vec<u32> = collector.collect().collect();
    assert_eq!(items, vec![4, 2, 3, 0, 1]);
}

#[test]
fn push_fills_a_block_behind_a_full_head() {
    let mut collector = Collector::<u32, 2>::new();
    collector.push(1);

    // One push detaches the chain; another runs in full before the first
    // places its value and links the chain back.
    let mut held = collector.take();
    collector.push(2);
    insert(&mut held, 3);
    collector.update(held);
    assert_eq!(collector.counts(), vec![2, 1]);

    // The head is full, the block behind it is not.
    collector.push(4);
    assert_eq!(collector.counts(), vec![2, 2]);

    let items: Vec<u32> = collector.collect().collect();
    assert_eq!(items, vec![1, 3, 2, 4]);
}

#[test]
fn take_leaves_the_collector_empty() {
    let mut collector = Collector::<u32, 2>::new();
    collector.push(1);
    collector.push(2);
    collector.push(3);

    let held = collector.take();
    assert_eq!(fill_counts(&held), vec![1, 2]);
    assert_eq!(collector.counts(), Vec::<usize>::new());

    let again = collector.take();
    assert!(again.is_none());
}

#[test]
fn update_links_in_front_of_what_came_meanwhile() {
    let mut collector = Collector::<u32, 2>::new();
    collector.push(1);
    collector.push(2);

    let mut held = collector.take();
    collector.push(10);
    collector.push(11);
    collector.push(12);
    insert(&mut held, 3);
    assert_eq!(fill_counts(&held), vec![1, 2]);
    collector.update(held);

    assert_eq!(collector.counts(), vec![1, 2, 1, 2]);
    let items: Vec<u32> = collector.collect().collect();
    assert_eq!(items, vec![3, 1, 2, 12, 10, 11]);
}

#[test]
fn update_with_an_empty_chain_changes_nothing() {
    let mut collector = Collector::<u32, 2>::new();
    collector.push(1);
    collector.update(None);
    assert_eq!(collector.counts(), vec![1]);
}

#[test]
fn overlapping_pushes_lose_and_double_nothing() {
    let mut collector = Collector::<u32, 3>::new();
    let mut pushed: Vec<u32> = Vec::new();
    let mut yielded: Vec<u32> = Vec::new();

    let mut next = 0;
    for round in 0..20 {
        // Several pushes detach one after another, a steal runs among them.
        let mut held: Vec<Chain<u32, 3>> = Vec::new();
        for _ in 0..(round % 4 + 1) {
            held.push(collector.take());
        }
        for chain in held.iter_mut() {
            insert(chain, next);
            pushed.push(next);
            next += 1;
        }
        let mut chains = held.into_iter();
        if let Some(chain) = chains.next() {
            collector.update(chain);
        }
        if round % 3 == 0 {
            yielded.extend(collector.collect());
        }
        for chain in chains {
            collector.update(chain);
        }
    }
    yielded.extend(collector.collect());

    assert_eq!(yielded.len(), pushed.len());
    yielded.sort();
    assert_eq!(yielded, pushed);
}

#[test]
fn two_steals_share_no_value() {
    let mut collector = Collector::<u32, 2>::new();
    for num in 0..5 {
        collector.push(num);
    }
    let mut first = collector.collect();
    let head = first.next();
    for num in 5..8 {
        collector.push(num);
    }
    let second: Vec<u32> = collector.collect().collect();
    let mut first: Vec<u32> = first.collect();
    first.extend(head);

    assert_eq!(first.len(), 5);
    assert_eq!(second.len(), 3);
    for val in &first {
        assert!(!second.contains(val));
    }
}

#[test]
fn a_steal_yields_what_was_linked_when_it_detached() {
    let mut collector = Collector::<u32, 2>::new();
    collector.push(1);
    collector.push(2);

    // A push has detached the chain: the steal finds the collector empty.
    let mut held = collector.take();
    let stolen: Vec<u32> = collector.collect().collect();
    assert_eq!(stolen, Vec::<u32>::new());

    // The values come back with the chain, and the next steal yields them.
    insert(&mut held, 3);
    collector.update(held);
    let stolen: Vec<u32> = collector.collect().collect();
    assert_eq!(stolen, vec![3, 1, 2]);

    let stolen: Vec<u32> = collector.collect().collect();
    assert_eq!(stolen, Vec::<u32>::new());
}

#[test]
fn dropping_the_collector_leaks_its_values() {
    let probe = Rc::new(());
    let mut collector = Collector::<Rc<()>, 2>::new();
    for _ in 0..5 {
        collector.push(Rc::clone(&probe));
    }
    assert_eq!(Rc::strong_count(&probe), 6);
    drop(collector);
    assert_eq!(Rc::strong_count(&probe), 6);
}
