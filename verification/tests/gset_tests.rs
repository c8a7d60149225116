use std::collections::HashSet;

use crdt_db::clock::VectorClock;
use crdt_db::crdt::{Crdt, Message, Response};
use crdt_db::gset::GrowSet;

#[test]
fn new_set_is_empty() {
    let g: GrowSet<i32> = GrowSet::new(3);
    assert!(g.get_all().is_empty());
    assert!(!g.get(1));
    assert_eq!(g.get_clock().entries(), vec![(3u16, 0u64)]);
    assert!(g.can_local_op());
}

#[test]
fn local_op_adds_and_ticks_own_counter() {
    let mut g: GrowSet<i32> = GrowSet::new(3);
    g.local_op(&10);
    assert!(g.get(10));
    assert!(!g.get(11));
    assert_eq!(g.get_clock().entries(), vec![(3u16, 1u64), (3u16, 1u64)]);
    g.local_op(&10);
    assert_eq!(g.get_all().len(), 1);
    assert_eq!(g.get_clock().clock_of(&3), Some(2));
}

#[test]
fn recv_op_adds_and_merges_clock() {
    let mut g: GrowSet<i32> = GrowSet::new(1);
    let remote = VectorClock::from_entries(vec![(2, 4)]);
    g.recv_op(&5, &remote);
    assert!(g.get(5));
    assert_eq!(g.get_clock().entries(), vec![(1u16, 0u64), (2u16, 4u64)]);
}

#[test]
fn update_clock_leaves_elements() {
    let mut g: GrowSet<i32> = GrowSet::new(1);
    g.local_op(&1);
    let remote = VectorClock::from_entries(vec![(1, 9)]);
    g.update_clock(&remote);
    assert_eq!(g.get_clock().clock_of(&1), Some(9));
    let expected: HashSet<i32> = vec![1].into_iter().collect();
    assert_eq!(g.get_all(), &expected);
}

#[test]
fn replicas_converge_whatever_the_order() {
    let mut a: GrowSet<i32> = GrowSet::new(1);
    let mut b: GrowSet<i32> = GrowSet::new(2);
    for x in [1, 2, 3, 2] {
        a.local_op(&x);
    }
    for x in [3, 3, 1, 2] {
        let c = VectorClock::new(1);
        b.recv_op(&x, &c);
    }
    assert_eq!(a.get_all(), b.get_all());
}

#[test]
fn string_elements_are_kept() {
    let mut g: GrowSet<String> = GrowSet::new(1);
    g.local_op(&"hello".to_string());
    assert!(g.get("hello".to_string()));
}

#[test]
fn messages_and_responses_are_built() {
    let m: Message<i32> = Message::Add(3);
    assert!(matches!(m, Message::Add(3)));
    let r: Response<i32> = Response::Read(3, true);
    assert!(matches!(r, Response::Read(3, true)));
    assert!(matches!(Message::<i32>::GetAll, Message::GetAll));
    assert!(matches!(Response::<i32>::Committed, Response::Committed));
}

#[test]
fn default_replica_is_zero_and_empty() {
    let g: GrowSet<i32> = GrowSet::default();
    assert_eq!(g.name(), 0);
    assert!(g.get_all().is_empty());
    assert_eq!(g.get_clock().entries(), vec![(0u16, 0u64)]);
}

#[test]
fn replica_rebuilt_from_parts() {
    let clock = VectorClock::from_entries(vec![(4, 2), (1, 1)]);
    let set: HashSet<i32> = vec![8, 9].into_iter().collect();
    let g = GrowSet::from_parts(4, clock, set.clone());
    assert_eq!(g.name(), 4);
    assert_eq!(g.get_all(), &set);
    assert_eq!(g.get_clock().entries(), vec![(4u16, 2u64), (1u16, 1u64)]);
}

#[test]
fn full_counter_forbids_local_op() {
    let clock = VectorClock::from_entries(vec![(4, u64::MAX)]);
    let g: GrowSet<i32> = GrowSet::from_parts(4, clock, HashSet::new());
    assert!(!g.can_local_op());
    let clock = VectorClock::from_entries(vec![(5, u64::MAX)]);
    let g: GrowSet<i32> = GrowSet::from_parts(4, clock, HashSet::new());
    assert!(g.can_local_op());
}
