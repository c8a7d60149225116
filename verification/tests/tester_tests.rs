use std::collections::HashSet;

use crdt_db::clock::VectorClock;
use crdt_db::crdt::Message;
use crdt_db::gset::GrowSet;
use crdt_db::tester::{Step, Tester};

fn scripts() -> Tester {
    let a = vec![Some(Message::Add(1)), Some(Message::Add(2)), None, Some(Message::Restart)];
    let b = vec![Some(Message::Add(3)), Some(Message::Add(1)), Some(Message::Add(4))];
    let c = vec![None, Some(Message::Add(5))];
    Tester::from_scripts(vec!["a".to_string(), "b".to_string(), "c".to_string()], vec![a, b, c])
}

fn replay(t: &Tester) -> HashSet<i32> {
    let mut run = t.start_random();
    let mut gset: GrowSet<i32> = GrowSet::new(0);
    loop {
        match run.step(&mut gset) {
            Step::Finished => return gset.get_all().clone(),
            Step::Unsupported => panic!("dont test read yet"),
            _ => {}
        }
    }
}

#[test]
fn random_valid_order_test() {
    let t = scripts();
    let res: Vec<_> = (0..10).map(|_| t.replay_random().get_all().clone()).collect();
    let equal = res[1..].eq(&res[..res.len() - 1]);
    if !equal {
        panic!("not equal");
    }
    let expected: HashSet<i32> = vec![1, 2, 3, 4, 5].into_iter().collect();
    assert_eq!(res[0], expected);
}

#[test]
fn one_script_replays_in_order() {
    let t = Tester::from_scripts(
        vec!["n".to_string()],
        vec![vec![Some(Message::Add(7)), None, Some(Message::Restart), Some(Message::Get(1))]],
    );
    let mut run = t.start_random();
    let mut gset: GrowSet<i32> = GrowSet::new(0);
    assert!(matches!(run.step(&mut gset), Step::Applied(7)));
    assert!(gset.get(7));
    assert!(matches!(run.step(&mut gset), Step::Skipped));
    assert!(matches!(run.step(&mut gset), Step::Restart));
    assert!(matches!(run.step(&mut gset), Step::Unsupported));
    assert!(matches!(run.step(&mut gset), Step::Finished));
}

#[test]
fn exhausted_script_is_set_aside() {
    let t = Tester::from_scripts(
        vec!["a".to_string(), "b".to_string()],
        vec![vec![], vec![Some(Message::Add(1))]],
    );
    let mut run = t.start_random();
    let mut gset: GrowSet<i32> = GrowSet::new(0);
    let mut exhausted = 0;
    loop {
        match run.step(&mut gset) {
            Step::Exhausted => exhausted += 1,
            Step::Finished => break,
            Step::Applied(x) => assert_eq!(x, 1),
            other => panic!("unexpected {:?}", other),
        }
    }
    assert_eq!(exhausted, 1);
    assert!(gset.get(1));
}

#[test]
fn empty_tester_has_no_scripts() {
    let t = Tester::from_scripts(vec![], vec![]);
    assert_eq!(t.script_count(), 0);
    assert!(t.nodes().is_empty());
}

#[test]
fn step_by_step_replays_agree() {
    let t = scripts();
    let expected: HashSet<i32> = vec![1, 2, 3, 4, 5].into_iter().collect();
    for _ in 0..10 {
        assert_eq!(replay(&t), expected);
    }
}

#[test]
fn replay_random_on_empty_scripts_is_empty() {
    let t = Tester::from_scripts(vec!["a".to_string()], vec![vec![None, Some(Message::Restart)]]);
    let g = t.replay_random();
    assert!(g.get_all().is_empty());
    assert_eq!(g.name(), 0);
}

#[test]
fn full_counter_stops_only_an_add() {
    let t = Tester::from_scripts(
        vec!["a".to_string()],
        vec![vec![None, Some(Message::Add(4))]],
    );
    let mut run = t.start_random();
    let clock = VectorClock::from_entries(vec![(0, u64::MAX)]);
    let mut gset: GrowSet<i32> = GrowSet::from_parts(0, clock, HashSet::new());
    assert!(matches!(run.step(&mut gset), Step::Skipped));
    assert!(matches!(run.step(&mut gset), Step::CounterFull));
    assert!(matches!(run.step(&mut gset), Step::CounterFull));
    assert!(!gset.get(4));
}

#[test]
fn step_with_reads_the_drawn_script() {
    let t = Tester::from_scripts(
        vec!["a".to_string(), "b".to_string(), "c".to_string()],
        vec![vec![Some(Message::Add(10))], vec![Some(Message::Add(20))], vec![Some(Message::Add(30))]],
    );
    let mut run = t.start_random();
    let mut gset: GrowSet<i32> = GrowSet::new(0);
    assert!(matches!(run.step_with(&mut gset, 4), Step::Applied(20)));
    assert!(matches!(run.step_with(&mut gset, 2), Step::Applied(30)));
    assert!(matches!(run.step_with(&mut gset, 3), Step::Applied(10)));
    assert!(matches!(run.step_with(&mut gset, 1), Step::Exhausted));
    assert!(matches!(run.step_with(&mut gset, 0), Step::Exhausted));
    assert!(matches!(run.step_with(&mut gset, 7), Step::Finished));
    let expected: HashSet<i32> = vec![10, 20, 30].into_iter().collect();
    assert_eq!(gset.get_all(), &expected);
}
