use std::collections::VecDeque;
use turing_machine::{Direction, Symbol, Tape};

fn nb(s: &str) -> Symbol {
    Symbol::NonBlank(s.to_string())
}

fn tape_of(names: &[&str]) -> Tape {
    Tape::new(names.iter().map(|s| nb(s)).collect::<VecDeque<_>>())
}

#[test]
fn empty_tape_has_one_blank_cell() {
    let t = Tape::new(VecDeque::new());
    assert_eq!(t.len(), 1);
    assert_eq!(t.position(), 0);
    assert_eq!(t.get_current(), Symbol::Blank);
}

#[test]
fn new_tape_starts_on_first_cell() {
    let t = tape_of(&["a", "b"]);
    assert_eq!(t.len(), 2);
    assert_eq!(t.get_current(), nb("a"));
    assert_eq!(t.cells(), vec![nb("a"), nb("b")]);
}

#[test]
fn stay_keeps_cursor_and_length() {
    let mut t = tape_of(&["a", "b", "c"]);
    t.step(Direction::Right);
    t.step(Direction::InPlace);
    assert_eq!(t.position(), 1);
    assert_eq!(t.len(), 3);
    assert_eq!(t.get_current(), nb("b"));
}

#[test]
fn left_then_right_restores_interior_position() {
    let mut t = tape_of(&["a", "b", "c"]);
    t.step(Direction::Right);
    t.put(nb("x"));
    t.step(Direction::Left);
    t.step(Direction::Right);
    assert_eq!(t.position(), 1);
    assert_eq!(t.cells(), vec![nb("a"), nb("x"), nb("c")]);
    t.step(Direction::Right);
    t.step(Direction::Left);
    assert_eq!(t.position(), 1);
    assert_eq!(t.cells(), vec![nb("a"), nb("x"), nb("c")]);
}

#[test]
fn repeated_left_exposes_blanks() {
    let mut t = tape_of(&["a"]);
    for k in 1..=4usize {
        t.step(Direction::Left);
        assert_eq!(t.position(), 0);
        assert_eq!(t.len(), 1 + k);
        assert_eq!(t.get_current(), Symbol::Blank);
    }
    let mut expected = vec![Symbol::Blank; 4];
    expected.push(nb("a"));
    assert_eq!(t.cells(), expected);
}

#[test]
fn repeated_right_exposes_blanks() {
    let mut t = tape_of(&["a", "b"]);
    t.step(Direction::Right);
    assert_eq!(t.get_current(), nb("b"));
    for k in 1..=3usize {
        t.step(Direction::Right);
        assert_eq!(t.position(), 1 + k);
        assert_eq!(t.len(), 2 + k);
        assert_eq!(t.get_current(), Symbol::Blank);
    }
}

#[test]
fn put_replaces_only_current_cell() {
    let mut t = tape_of(&["a", "b"]);
    t.put(Symbol::Blank);
    assert_eq!(t.cells(), vec![Symbol::Blank, nb("b")]);
    assert_eq!(t.position(), 0);
}

#[test]
fn symbol_comparison_and_copy() {
    assert!(nb("a").same_as(&nb("a")));
    assert!(!nb("a").same_as(&nb("b")));
    assert!(!nb("a").same_as(&Symbol::Blank));
    assert_eq!(nb("q").duplicate(), nb("q"));
}
