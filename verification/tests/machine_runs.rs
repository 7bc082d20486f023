use ndtm::machine::{conclude, decide, StepResult, Verdict, NDTM};
use ndtm::rules::{Output, RuleStore, Transition};
use ndtm::tape::{Movement, Tape};

const W: usize = 5;
const BLANK: u8 = b'_';

fn rule(
    rules: &mut RuleStore,
    state_in: usize,
    symb_in: u8,
    symb_out: u8,
    dir: Movement,
    state_out: usize,
) {
    rules.add_rule(state_in, symb_in, symb_out, state_out, dir);
}

fn run(rules: &RuleStore, input: &[u8], budget: usize) -> Verdict {
    decide(rules, W, BLANK, input, budget)
}

#[test]
fn trivial_accept() {
    let mut rs = RuleStore::new();
    rule(&mut rs, 0, b'a', b'a', Movement::Right, 1);
    rs.add_final(1);
    rs.compute_dist();
    assert_eq!(run(&rs, b"a", 10), Verdict::Success);
}

#[test]
fn immediate_reject() {
    let mut rs = RuleStore::new();
    rule(&mut rs, 0, b'a', b'a', Movement::Right, 1);
    rs.add_final(1);
    rs.compute_dist();
    assert_eq!(run(&rs, b"b", 10), Verdict::Failure);
}

#[test]
fn nondeterministic_accept() {
    let mut rs = RuleStore::new();
    rule(&mut rs, 0, b'a', b'a', Movement::Right, 0);
    rule(&mut rs, 0, b'a', b'a', Movement::Right, 1);
    rule(&mut rs, 1, BLANK, BLANK, Movement::Stay, 2);
    rs.add_final(2);
    rs.compute_dist();
    assert_eq!(run(&rs, b"a", 20), Verdict::Success);
}

#[test]
fn step_bounded_undecided() {
    let mut rs = RuleStore::new();
    rule(&mut rs, 0, BLANK, BLANK, Movement::Right, 0);
    rs.add_final(99);
    rs.compute_dist();
    assert_eq!(run(&rs, b"_", 5), Verdict::Undecided);
}

#[test]
fn boundary_shift_accepts() {
    // Six rules overwrite abcdef with Z, moving right across the cell
    // boundary at position five.
    let mut rs = RuleStore::new();
    let input = b"abcdef";
    for (i, s) in input.iter().enumerate() {
        rule(&mut rs, i, *s, b'Z', Movement::Right, i + 1);
    }
    rs.add_final(6);
    rs.compute_dist();
    assert_eq!(run(&rs, input, 10), Verdict::Success);
}

#[test]
fn split_isolation_decides() {
    // Two alternatives write different symbols at position 0; only the
    // first leads to acceptance, the other dies with no rule.
    let mut rs = RuleStore::new();
    rule(&mut rs, 0, b'a', b'x', Movement::Stay, 1);
    rule(&mut rs, 0, b'a', b'y', Movement::Stay, 2);
    rule(&mut rs, 1, b'x', b'x', Movement::Stay, 3);
    rs.add_final(3);
    rs.compute_dist();
    assert_eq!(run(&rs, b"a", 10), Verdict::Success);
}

#[test]
fn empty_input_runs_on_blank_tape() {
    let mut rs = RuleStore::new();
    rule(&mut rs, 0, BLANK, BLANK, Movement::Stay, 1);
    rs.add_final(1);
    rs.compute_dist();
    assert_eq!(run(&rs, b"", 10), Verdict::Success);
}

#[test]
fn no_finals_means_failure_on_halting_runs() {
    // With no finals declared no branch can ever recognize; on inputs
    // where every branch halts before the budget the verdict is Failure.
    let mut rs = RuleStore::new();
    rule(&mut rs, 0, b'a', b'a', Movement::Right, 1);
    rs.compute_dist();
    assert_eq!(run(&rs, b"a", 10), Verdict::Failure);
    assert_eq!(run(&rs, b"b", 10), Verdict::Failure);
}

#[test]
fn budget_zero_drops_the_seed() {
    let mut rs = RuleStore::new();
    rule(&mut rs, 0, b'a', b'a', Movement::Right, 1);
    rs.add_final(1);
    rs.compute_dist();
    assert_eq!(run(&rs, b"a", 0), Verdict::Undecided);
}

#[test]
fn verdict_is_deterministic_across_runs() {
    let mut rs = RuleStore::new();
    rule(&mut rs, 0, b'a', b'a', Movement::Right, 0);
    rule(&mut rs, 0, b'a', b'b', Movement::Right, 1);
    rule(&mut rs, 1, BLANK, BLANK, Movement::Stay, 2);
    rs.add_final(2);
    rs.compute_dist();
    let first = run(&rs, b"aaa", 30);
    let second = run(&rs, b"aaa", 30);
    assert_eq!(first, second);
    assert_eq!(first, Verdict::Success);
}

#[test]
fn traces_are_reproducible() {
    let mut rs = RuleStore::new();
    rule(&mut rs, 0, b'a', b'a', Movement::Right, 0);
    rule(&mut rs, 0, b'a', b'a', Movement::Right, 1);
    rule(&mut rs, 1, BLANK, BLANK, Movement::Stay, 2);
    rs.add_final(2);
    rs.compute_dist();
    let mut first = NDTM::new(Tape::create(W, BLANK, b"aa"), &rs, 20);
    let mut second = NDTM::new(Tape::create(W, BLANK, b"aa"), &rs, 20);
    let ta = first.fastforward(None);
    let tb = second.fastforward(None);
    assert_eq!(format!("{:?}", ta), format!("{:?}", tb));
}

#[test]
fn scheduler_reports_steps() {
    let mut rs = RuleStore::new();
    rule(&mut rs, 0, b'a', b'a', Movement::Right, 1);
    rs.add_final(1);
    rs.compute_dist();
    let mut nd = NDTM::new(Tape::create(W, BLANK, b"a"), &rs, 10);
    let trace = nd.fastforward(None);
    assert!(matches!(trace.last(), Some(StepResult::Success { .. })));
    assert!(!nd.some_undecided);
}

#[test]
fn scheduler_fails_all_when_no_rule() {
    let rs = {
        let mut rs = RuleStore::new();
        rs.compute_dist();
        rs
    };
    let mut nd = NDTM::new(Tape::create(W, BLANK, b"a"), &rs, 10);
    let trace = nd.fastforward(None);
    assert!(matches!(trace.first(), Some(StepResult::BranchFail { .. })));
    assert!(matches!(trace.last(), Some(StepResult::FailAll)));
    assert_eq!(conclude(trace.last().unwrap(), nd.some_undecided), Verdict::Failure);
}

#[test]
fn scheduler_splits_on_choice() {
    let mut rs = RuleStore::new();
    rule(&mut rs, 0, b'a', b'x', Movement::Stay, 1);
    rule(&mut rs, 0, b'a', b'y', Movement::Stay, 2);
    rs.compute_dist();
    let mut nd = NDTM::new(Tape::create(W, BLANK, b"a"), &rs, 10);
    let first = nd.step();
    match first {
        StepResult::Split { source, new } => {
            assert_eq!(source, 0);
            assert_eq!(new, vec![1, 2]);
        }
        other => panic!("expected a split, got {:?}", other),
    }
}

#[test]
fn deterministic_rules_keep_one_branch() {
    let mut rs = RuleStore::new();
    rule(&mut rs, 0, b'a', b'a', Movement::Right, 0);
    rule(&mut rs, 0, BLANK, BLANK, Movement::Right, 0);
    rs.add_final(9);
    rs.compute_dist();
    let mut nd = NDTM::new(Tape::create(W, BLANK, b"aaa"), &rs, 7);
    let trace = nd.fastforward(None);
    for r in &trace {
        assert!(!matches!(r, StepResult::Split { .. }));
    }
    assert_eq!(run(&rs, b"aaa", 7), Verdict::Undecided);
}

#[test]
fn rule_store_lookup() {
    let mut rs = RuleStore::new();
    rule(&mut rs, 0, b'a', b'b', Movement::Left, 4);
    match rs.get(0, b'a') {
        Output::Simple(Transition { state, symb, dir }) => {
            assert_eq!(state, 4);
            assert_eq!(symb, b'b');
            assert!(matches!(dir, Movement::Left));
        }
        _ => panic!("expected a single rule"),
    }
    assert!(matches!(rs.get(0, b'z'), Output::NoRule));
    rule(&mut rs, 0, b'a', b'c', Movement::Right, 5);
    match rs.get(0, b'a') {
        Output::Multi(v) => {
            assert_eq!(v.len(), 2);
            assert_eq!(v[0].state, 4);
            assert_eq!(v[1].state, 5);
        }
        _ => panic!("expected a choice of two"),
    }
}

#[test]
fn distances_follow_reverse_reachability() {
    let mut rs = RuleStore::new();
    rule(&mut rs, 0, b'a', b'a', Movement::Right, 1);
    rule(&mut rs, 1, b'a', b'a', Movement::Right, 2);
    rule(&mut rs, 7, b'a', b'a', Movement::Right, 7);
    rs.add_final(2);
    rs.compute_dist();
    assert!(rs.is_final(2));
    assert!(!rs.is_final(0));
    assert_eq!(rs.distance(2), 0);
    assert_eq!(rs.distance(1), 1);
    assert_eq!(rs.distance(0), 2);
    // State 7 loops on itself and never reaches the final state.
    assert_eq!(rs.distance(7), usize::MAX);
}

#[test]
fn distance_takes_the_shortest_path() {
    // Two ways out of state 0: through state 1 (two steps) or straight
    // to the final state (one step); the heuristic takes the shorter.
    let mut rs = RuleStore::new();
    rule(&mut rs, 0, b'a', b'a', Movement::Right, 1);
    rule(&mut rs, 1, b'a', b'a', Movement::Right, 2);
    rule(&mut rs, 0, b'b', b'b', Movement::Right, 2);
    rs.add_final(2);
    rs.compute_dist();
    assert_eq!(rs.distance(0), 1);
    assert_eq!(rs.distance(1), 1);
    assert_eq!(rs.distance(2), 0);
}
