use std::rc::Rc;

use tweak::{Node, Tweak};

fn order_from_head(t: &Tweak<i32>, steps: usize) -> Vec<Option<i32>> {
    (0..steps).map(|k| t.follow_next(k).copied()).collect()
}

#[test]
fn test() {
    let mut new = Tweak::new(4);
    new.insert_from_head(1);
    new.insert_from_head(2);
    new.insert_from_head(3);
    println!("{}", new.len());
    new.insert_from_head(4);
    new.insert_from_head(5);
    println!("{}", new.len());
    assert_eq!(4, new.len());
}

#[test]
fn node_starts_unlinked() {
    let n = Node::new(7);
    assert_eq!(n.value, 7);
    assert_eq!(n.prev, None);
    assert_eq!(n.next, None);
}

#[test]
fn growing_chain_has_no_cycle() {
    let mut t = Tweak::new(4);
    t.insert_from_head(1);
    t.insert_from_head(2);
    t.insert_from_head(3);
    assert_eq!(t.len(), 3);
    assert_eq!(order_from_head(&t, 4), vec![Some(3), Some(2), Some(1), None]);
    assert_eq!(t.follow_prev(0), Some(&3));
    assert_eq!(t.follow_prev(1), None);
}

#[test]
fn filling_closes_the_cycle() {
    let mut t = Tweak::new(4);
    for v in 1..=4 {
        t.insert_from_head(v);
    }
    assert_eq!(t.len(), 4);
    assert_eq!(
        order_from_head(&t, 5),
        vec![Some(4), Some(3), Some(2), Some(1), Some(4)]
    );
    assert_eq!(t.follow_prev(1), Some(&1));
    assert_eq!(t.follow_prev(4), Some(&4));
}

#[test]
fn full_ring_evicts_oldest() {
    let mut t = Tweak::new(4);
    for v in 1..=5 {
        t.insert_from_head(v);
    }
    assert_eq!(t.len(), 4);
    assert_eq!(
        order_from_head(&t, 5),
        vec![Some(5), Some(4), Some(3), Some(2), Some(5)]
    );
    assert!(!order_from_head(&t, 4).contains(&Some(1)));
    assert_eq!(t.follow_prev(1), Some(&2));
    assert_eq!(t.follow_prev(4), Some(&5));
}

#[test]
fn capacity_one_replaces_its_element() {
    let mut t = Tweak::new(1);
    t.insert_from_head(10);
    assert_eq!(t.len(), 1);
    assert_eq!(t.follow_next(1), Some(&10));
    t.insert_from_head(20);
    assert_eq!(t.len(), 1);
    assert_eq!(t.follow_next(0), Some(&20));
    assert_eq!(t.follow_next(1), Some(&20));
    assert_eq!(t.follow_prev(1), Some(&20));
}

#[test]
fn capacity_one_frees_evicted_value() {
    let ten = Rc::new(10);
    let twenty = Rc::new(20);
    let mut t = Tweak::new(1);
    t.insert_from_head(Rc::clone(&ten));
    t.insert_from_head(Rc::clone(&twenty));
    assert_eq!(Rc::strong_count(&ten), 1);
    assert_eq!(Rc::strong_count(&twenty), 2);
    drop(t);
    assert_eq!(Rc::strong_count(&twenty), 1);
}

#[test]
fn empty_ring_tears_down() {
    let t: Tweak<i32> = Tweak::new(4);
    assert_eq!(t.len(), 0);
    assert_eq!(t.follow_next(0), None);
    assert_eq!(t.follow_prev(0), None);
    drop(t);
}

#[test]
fn len_is_min_of_capacity_and_insertions() {
    let mut t = Tweak::new(3);
    for i in 1..=10usize {
        t.insert_from_head(i as i32);
        assert_eq!(t.len(), i.min(3));
        assert!(t.len() <= 3);
    }
}

#[test]
fn each_insertion_into_full_ring_evicts_the_oldest() {
    let mut t = Tweak::new(3);
    for v in 1..=3 {
        t.insert_from_head(v);
    }
    for v in 4..=9 {
        let before = order_from_head(&t, 3);
        t.insert_from_head(v);
        let after = order_from_head(&t, 3);
        assert_eq!(after[0], Some(v));
        assert_eq!(&after[1..], &before[..2]);
        assert!(!after.contains(&before[2]));
    }
}

#[test]
fn cycle_walks_return_to_head() {
    let mut t = Tweak::new(5);
    for v in 0..5 {
        assert_eq!(t.follow_next(t.len()), None);
        t.insert_from_head(v);
    }
    assert_eq!(t.follow_next(5), Some(&4));
    assert_eq!(t.follow_prev(5), Some(&4));
    assert_eq!(t.follow_next(12), Some(&2));
    assert_eq!(t.follow_prev(2), Some(&1));
}

#[test]
fn every_value_released_exactly_once() {
    for inserted in [0usize, 4, 11] {
        let token = Rc::new(());
        let mut t = Tweak::new(4);
        for _ in 0..inserted {
            t.insert_from_head(Rc::clone(&token));
            assert_eq!(Rc::strong_count(&token), 1 + t.len());
        }
        drop(t);
        assert_eq!(Rc::strong_count(&token), 1);
    }
}

#[test]
fn large_ring_keeps_newest() {
    let mut t = Tweak::new(1000);
    for v in 0..2500 {
        t.insert_from_head(v);
    }
    assert_eq!(t.len(), 1000);
    assert_eq!(t.follow_next(0), Some(&2499));
    assert_eq!(t.follow_next(999), Some(&1500));
    assert_eq!(t.follow_next(1000), Some(&2499));
    assert_eq!(t.follow_prev(1), Some(&1500));
}
