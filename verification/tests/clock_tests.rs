use std::cmp::Ordering;

use crdt_db::clock::VectorClock;

#[test]
fn new_clock_knows_only_me_at_zero() {
    let c = VectorClock::new(7);
    assert_eq!(c.entries(), vec![(7u16, 0u64)]);
    assert_eq!(c.clock_of(&7), Some(0));
    assert_eq!(c.clock_of(&8), None);
}

#[test]
fn recv_on_known_node_bumps_first_and_appends() {
    let mut c = VectorClock::new(1);
    c.recv(&1);
    assert_eq!(c.entries(), vec![(1u16, 1u64), (1u16, 1u64)]);
    c.recv(&1);
    assert_eq!(c.entries(), vec![(1u16, 2u64), (1u16, 1u64), (1u16, 1u64)]);
    assert_eq!(c.clock_of(&1), Some(2));
}

#[test]
fn recv_on_unknown_node_appends_one() {
    let mut c = VectorClock::new(1);
    c.recv(&4);
    assert_eq!(c.entries(), vec![(1u16, 0u64), (4u16, 1u64)]);
    assert_eq!(c.clock_of(&4), Some(1));
}

#[test]
fn update_takes_maxima_and_appends_unknown() {
    let mut a = VectorClock::from_entries(vec![(1, 5), (2, 1)]);
    let b = VectorClock::from_entries(vec![(2, 3), (3, 2), (1, 4)]);
    a.update(&b);
    assert_eq!(a.entries(), vec![(1u16, 5u64), (2u16, 3u64), (3u16, 2u64)]);
}

#[test]
fn update_merges_duplicates_of_other_into_one_entry() {
    let mut a = VectorClock::new(1);
    let b = VectorClock::from_entries(vec![(9, 3), (9, 2)]);
    a.update(&b);
    assert_eq!(a.entries(), vec![(1u16, 0u64), (9u16, 3u64)]);
}

#[test]
fn update_is_commutative_on_counters() {
    let a = VectorClock::from_entries(vec![(1, 5), (2, 1)]);
    let b = VectorClock::from_entries(vec![(2, 3), (3, 2)]);
    let mut ab = a.clone();
    ab.update(&b);
    let mut ba = b.clone();
    ba.update(&a);
    for n in 0..5u16 {
        assert_eq!(ab.clock_of(&n), ba.clock_of(&n));
    }
    assert!(ab == ba);
}

#[test]
fn behind_nodes_lists_entries_ahead() {
    let a = VectorClock::from_entries(vec![(1, 5), (2, 1)]);
    let b = VectorClock::from_entries(vec![(1, 4), (2, 3), (3, 1)]);
    assert_eq!(a.behind_nodes(&b), vec![(2u16, 3u64), (3u16, 1u64)]);
    assert_eq!(b.behind_nodes(&a), vec![(1u16, 5u64)]);
}

#[test]
fn clocks_with_same_counters_are_equal() {
    let a = VectorClock::from_entries(vec![(1, 2), (2, 0)]);
    let b = VectorClock::from_entries(vec![(1, 2)]);
    assert!(a == b);
    let c = VectorClock::from_entries(vec![(1, 3)]);
    assert!(a != c);
}

#[test]
fn partial_cmp_of_concurrent_clocks_is_none() {
    let a = VectorClock::from_entries(vec![(1, 2), (2, 0)]);
    let b = VectorClock::from_entries(vec![(1, 1), (2, 1)]);
    assert_eq!(a.partial_cmp(&b), None);
}

#[test]
fn partial_cmp_of_ordered_clocks_is_greater() {
    let a = VectorClock::from_entries(vec![(1, 2)]);
    let b = VectorClock::from_entries(vec![(1, 1)]);
    assert_eq!(a.partial_cmp(&b), Some(Ordering::Greater));
    assert_eq!(b.partial_cmp(&a), Some(Ordering::Greater));
}

#[test]
fn later_larger_duplicate_is_kept_and_first_entry_counts() {
    let c = VectorClock::from_entries(vec![(1, 1), (1, 2)]);
    assert!(!c.is_well_formed());
    assert_eq!(c.clock_of(&1), Some(1));
    assert_eq!(c.entries(), vec![(1u16, 1u64), (1u16, 2u64)]);
    assert!(VectorClock::from_entries(vec![(1, 2), (1, 1)]).is_well_formed());
    assert!(VectorClock::from_entries(vec![]).is_well_formed());
}

#[test]
fn update_from_ill_formed_clock_takes_every_entry() {
    let mut a = VectorClock::from_entries(vec![(1, 3)]);
    let b = VectorClock::from_entries(vec![(1, 1), (1, 5)]);
    a.update(&b);
    assert_eq!(a.entries(), vec![(1u16, 5u64)]);
}

#[test]
fn clone_keeps_entries() {
    let a = VectorClock::from_entries(vec![(3, 2), (1, 7)]);
    assert_eq!(a.clone().entries(), a.entries());
}

#[test]
fn update_is_associative_and_idempotent_on_counters() {
    let a = VectorClock::from_entries(vec![(1, 5), (2, 1)]);
    let b = VectorClock::from_entries(vec![(2, 3), (3, 2)]);
    let c = VectorClock::from_entries(vec![(3, 7), (1, 1), (4, 4)]);
    let mut left = a.clone();
    left.update(&b);
    left.update(&c);
    let mut bc = b.clone();
    bc.update(&c);
    let mut right = a.clone();
    right.update(&bc);
    for n in 0..6u16 {
        assert_eq!(left.clock_of(&n), right.clock_of(&n));
    }
    let mut aa = a.clone();
    aa.update(&a);
    assert_eq!(aa.entries(), a.entries());
}

#[test]
fn merged_clock_dominates_both() {
    let a = VectorClock::from_entries(vec![(1, 5), (2, 1)]);
    let b = VectorClock::from_entries(vec![(2, 3), (3, 2)]);
    let mut m = a.clone();
    m.update(&b);
    assert!(m.behind_nodes(&a).is_empty());
    assert!(m.behind_nodes(&b).is_empty());
    assert_eq!(a.behind_nodes(&m), vec![(2u16, 3u64), (3u16, 2u64)]);
}

#[test]
fn recv_moves_forward_only_at_sender() {
    let a0 = VectorClock::from_entries(vec![(1, 2), (2, 5)]);
    let mut a = a0.clone();
    a.recv(&2);
    assert!(a.behind_nodes(&a0).is_empty());
    let ahead = a0.behind_nodes(&a);
    assert!(!ahead.is_empty());
    assert!(ahead.iter().all(|e| e.0 == 2));
}

#[test]
fn repeated_merge_of_ill_formed_clock_changes_nothing() {
    let mut a = VectorClock::from_entries(vec![(2, 1)]);
    let b = VectorClock::from_entries(vec![(1, 1), (1, 2)]);
    a.update(&b);
    let once = a.entries();
    a.update(&b);
    assert_eq!(a.entries(), once);
    assert_eq!(a.clock_of(&1), Some(2));
}

#[test]
fn ill_formed_clock_is_not_equal_to_itself() {
    let a = VectorClock::from_entries(vec![(1, 1), (1, 2)]);
    assert!(a != a.clone());
}
