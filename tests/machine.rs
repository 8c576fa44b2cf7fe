use std::collections::VecDeque;
use turing_machine::{
    parser, Direction, Outcome, Rules, State, Symbol, Tape, TuringMachine, Verdict,
};

const HEADER: &str = "start: s0\naccept: yes\nreject: no\nblank: _\n";

fn machine_for(text: &str) -> TuringMachine {
    let (rules, start) = parser(text).expect("program parses");
    TuringMachine { tape: Tape::new(VecDeque::new()), rules, state: start }
}

fn inter(s: &str) -> State {
    State::Intermediate(s.to_string())
}

#[test]
fn accept_after_one_step() {
    let mut m = machine_for(&format!("{HEADER}\ns0 _ -> yes _ >\n"));
    assert_eq!(m.run(100), (Verdict::Accept, 1));
    assert_eq!(m.state, State::Accept);
    assert_eq!(m.tape.position(), 1);
    assert_eq!(m.tape.cells(), vec![Symbol::Blank, Symbol::Blank]);
}

#[test]
fn no_rules_rejects_by_no_rule() {
    let mut m = machine_for(HEADER);
    assert_eq!(m.run(100), (Verdict::RejectByNoRule, 1));
    assert_eq!(m.state, State::Reject);
    assert_eq!(m.tape.cells(), vec![Symbol::Blank]);
    assert_eq!(m.tape.position(), 0);
}

#[test]
fn explicit_reject_rule() {
    let mut m = machine_for(&format!("{HEADER}s0 _ -> no _ ^"));
    assert_eq!(m.run(100), (Verdict::RejectByRule, 1));
    assert_eq!(m.tape.cells(), vec![Symbol::Blank]);
    assert_eq!(m.tape.position(), 0);
}

#[test]
fn endless_loop_hits_step_limit() {
    let mut m = machine_for(&format!("{HEADER}s0 _ -> s0 _ >\n"));
    assert_eq!(m.run(5), (Verdict::TimeLimitExceeded, 5));
    assert_eq!(m.state, inter("s0"));
    assert_eq!(m.tape.position(), 5);
    assert_eq!(m.tape.len(), 6);
}

#[test]
fn zero_budget_performs_no_step() {
    let mut m = machine_for(&format!("{HEADER}s0 _ -> yes _ >\n"));
    assert_eq!(m.run(0), (Verdict::TimeLimitExceeded, 0));
    assert_eq!(m.state, inter("s0"));
}

#[test]
fn halting_start_state_needs_no_step() {
    let mut m = machine_for("start: yes\naccept: yes\nreject: no\nblank: _");
    assert_eq!(m.run(10), (Verdict::Accept, 0));
}

#[test]
fn step_without_rule_leaves_tape() {
    let mut rules = Rules::new();
    rules.insert(
        ("s".to_string(), Symbol::Blank),
        (State::Accept, Symbol::Blank, Direction::Right),
    );
    let tape = Tape::new(VecDeque::from(vec![Symbol::NonBlank("1".to_string())]));
    let mut m = TuringMachine { tape, rules, state: inter("s") };
    assert_eq!(m.step(), Outcome::RejectByNoRule);
    assert_eq!(m.state, State::Reject);
    assert_eq!(m.tape.get_current(), Symbol::NonBlank("1".to_string()));
    assert_eq!(m.tape.position(), 0);
}

#[test]
fn step_into_reject_writes_and_moves() {
    let mut rules = Rules::new();
    rules.insert(
        ("s".to_string(), Symbol::Blank),
        (State::Reject, Symbol::NonBlank("x".to_string()), Direction::Left),
    );
    let mut m = TuringMachine { tape: Tape::new(VecDeque::new()), rules, state: inter("s") };
    assert_eq!(m.step(), Outcome::RejectByRule);
    assert_eq!(m.state, State::Reject);
    assert_eq!(m.tape.position(), 0);
    assert_eq!(m.tape.cells(), vec![Symbol::Blank, Symbol::NonBlank("x".to_string())]);
}

#[test]
fn step_in_progress_and_accept() {
    let mut rules = Rules::new();
    rules.insert(
        ("a".to_string(), Symbol::Blank),
        (inter("b"), Symbol::NonBlank("1".to_string()), Direction::Right),
    );
    rules.insert(
        ("b".to_string(), Symbol::Blank),
        (State::Accept, Symbol::Blank, Direction::InPlace),
    );
    let mut m = TuringMachine { tape: Tape::new(VecDeque::new()), rules, state: inter("a") };
    assert_eq!(m.outcome(), Outcome::InProgress);
    assert_eq!(m.step(), Outcome::InProgress);
    assert_eq!(m.state, inter("b"));
    assert_eq!(m.step(), Outcome::Accept);
    assert_eq!(m.tape.cells(), vec![Symbol::NonBlank("1".to_string()), Symbol::Blank]);
}

#[test]
fn rules_insert_replaces_and_get_finds() {
    let mut rules = Rules::new();
    let k = ("s".to_string(), Symbol::Blank);
    assert!(!rules.contains(&k.0, &k.1));
    rules.insert(k.clone(), (State::Accept, Symbol::Blank, Direction::Left));
    rules.insert(k.clone(), (State::Reject, Symbol::Blank, Direction::Right));
    assert!(rules.contains(&k.0, &k.1));
    assert_eq!(rules.get(&k.0, &k.1), Some((State::Reject, Symbol::Blank, Direction::Right)));
    assert_eq!(rules.get(&"t".to_string(), &Symbol::Blank), None);
}
