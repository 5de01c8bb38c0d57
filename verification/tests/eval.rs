use nock::interp::{eval, eval_within};
use nock::noun::Noun;
use std::rc::Rc;

fn atom(x: u64) -> Noun {
    Noun::Atom(x)
}

fn cell(a: Noun, b: Noun) -> Noun {
    Noun::Cell(Rc::new(a), Rc::new(b))
}

#[test]
fn opcode_constant() {
    assert_eq!(eval(atom(42), cell(atom(1), atom(7))), atom(7));
}

#[test]
fn opcode_slot() {
    let subject = cell(atom(10), cell(atom(20), atom(30)));
    assert_eq!(eval(subject.clone(), cell(atom(0), atom(3))), cell(atom(20), atom(30)));
    assert_eq!(eval(subject.clone(), cell(atom(0), atom(6))), atom(20));
}

#[test]
fn opcode_is_cell() {
    let subject = cell(atom(10), atom(20));
    assert_eq!(eval(subject.clone(), cell(atom(3), cell(atom(0), atom(1)))), atom(0));
    assert_eq!(eval(subject.clone(), cell(atom(3), cell(atom(0), atom(2)))), atom(1));
}

#[test]
fn opcode_increment() {
    let subject = cell(atom(10), atom(20));
    assert_eq!(eval(subject.clone(), cell(atom(4), cell(atom(0), atom(2)))), atom(11));
    assert_eq!(eval(subject.clone(), cell(atom(4), cell(atom(0), atom(3)))), atom(21));
}

#[test]
fn opcode_equals() {
    let f = cell(atom(5), cell(cell(atom(0), atom(2)), cell(atom(0), atom(3))));
    assert_eq!(eval(cell(atom(10), atom(10)), f.clone()), atom(0));
    assert_eq!(eval(cell(atom(10), atom(20)), f.clone()), atom(1));
}

#[test]
fn opcode_if() {
    let subject = cell(atom(10), atom(20));
    let branches = cell(cell(atom(0), atom(2)), cell(atom(0), atom(3)));
    let yes = cell(atom(6), cell(cell(atom(1), atom(0)), branches.clone()));
    let no = cell(atom(6), cell(cell(atom(1), atom(1)), branches.clone()));
    let other = cell(atom(6), cell(cell(atom(1), atom(7)), branches.clone()));
    assert_eq!(eval(subject.clone(), yes), atom(10));
    assert_eq!(eval(subject.clone(), no), atom(20));
    assert_eq!(eval(subject.clone(), other), atom(20));
}

#[test]
fn opcode_compose() {
    let f = cell(atom(7), cell(cell(atom(1), atom(10)), cell(atom(4), cell(atom(0), atom(1)))));
    assert_eq!(eval(atom(42), f), atom(11));
}

#[test]
fn opcode_push() {
    let head = cell(atom(8), cell(cell(atom(1), atom(10)), cell(atom(0), atom(2))));
    let tail = cell(atom(8), cell(cell(atom(1), atom(10)), cell(atom(0), atom(3))));
    assert_eq!(eval(atom(42), head), atom(10));
    assert_eq!(eval(atom(42), tail), atom(42));
}

#[test]
fn opcode_evaluate() {
    // *[a 2 b c] = *[*[a b] *[a c]]
    let f = cell(atom(2), cell(cell(atom(1), atom(41)), cell(atom(1), cell(atom(4), cell(atom(0), atom(1))))));
    assert_eq!(eval(atom(0), f), atom(42));
}

#[test]
fn opcode_edit() {
    // [10 [axis replacement] target]
    let f = cell(atom(10), cell(cell(atom(2), cell(atom(1), atom(99))), cell(atom(0), atom(1))));
    assert_eq!(eval(cell(atom(10), atom(20)), f), cell(atom(99), atom(20)));
}

#[test]
fn opcode_hint() {
    let f = cell(atom(11), cell(cell(atom(1), atom(5)), cell(atom(1), atom(7))));
    assert_eq!(eval(atom(42), f), atom(7));
}

#[test]
fn eval_within_agrees_with_eval() {
    let f = cell(atom(7), cell(cell(atom(1), atom(10)), cell(atom(4), cell(atom(0), atom(1)))));
    assert_eq!(eval_within(atom(42), f.clone(), 100), Some(eval(atom(42), f.clone())));
    assert_eq!(eval_within(atom(42), f.clone(), 100), Some(atom(11)));
}

#[test]
fn eval_within_fuel_runs_out() {
    let f = cell(atom(7), cell(cell(atom(1), atom(10)), cell(atom(4), cell(atom(0), atom(1)))));
    assert_eq!(eval_within(atom(42), f.clone(), 0), None);
    assert_eq!(eval_within(atom(42), f.clone(), 1), None);
}

#[test]
fn eval_within_endless_loop() {
    // [2 [0 1] [0 1]] evaluated against itself never finishes.
    let f = cell(atom(2), cell(cell(atom(0), atom(1)), cell(atom(0), atom(1))));
    assert_eq!(eval_within(f.clone(), f.clone(), 1000), None);
}

#[test]
fn eval_within_crashes() {
    // an atom is no formula
    assert_eq!(eval_within(atom(1), atom(1), 100), None);
    // unknown opcode
    assert_eq!(eval_within(atom(1), cell(atom(12), atom(0)), 100), None);
    // slot 0 and a slot through an atom
    assert_eq!(eval_within(atom(1), cell(atom(0), atom(0)), 100), None);
    assert_eq!(eval_within(atom(1), cell(atom(0), atom(2)), 100), None);
    // increment overflows
    assert_eq!(eval_within(atom(u64::MAX), cell(atom(4), cell(atom(0), atom(1))), 100), None);
    // opcode 9 never yields a value
    let nine = cell(atom(9), cell(atom(2), cell(atom(1), cell(cell(atom(1), atom(5)), atom(0)))));
    assert_eq!(eval_within(atom(0), nine, 100), None);
    // opcode 11 with an atom argument continues with an atom formula
    assert_eq!(eval_within(atom(1), cell(atom(11), atom(3)), 100), None);
}
