use vstd::prelude::*;

use crate::noun::{left_get, number_get, right_get, Noun};
use crate::tree::{edit, slot, slot_exists, tree_get, tree_set};

verus! {

/// What one reduction step of a formula yields: a final value, or the
/// subject and formula to evaluate next.
pub enum Outcome {
    Done(Noun),
    Continue(Noun, Noun),
}

/// One reduction step of `formula` against `subject`, where the
/// subevaluations the step needs are allowed `fuel - 1` steps each.
/// `None` where the step has no result: a malformed formula, an unknown
/// opcode, a missing slot, an overflowing increment, or a subevaluation
/// that does not finish within its fuel.
pub open spec fn step(subject: Noun, formula: Noun, fuel: nat) -> Option<Outcome>
    decreases fuel, 0nat,
{
    if fuel == 0 {
        None
    } else {
        let k = (fuel - 1) as nat;
        match formula {
            Noun::Cell(op, arg) => match *op {
                Noun::Atom(0) => match *arg {
                    Noun::Atom(axis) => match slot(subject, axis as nat) {
                        Some(r) => Some(Outcome::Done(r)),
                        None => None,
                    },
                    Noun::Cell(_, _) => None,
                },
                Noun::Atom(1) => Some(Outcome::Done(*arg)),
                Noun::Atom(2) => match *arg {
                    Noun::Cell(b, c) => match (nock(subject, *b, k), nock(subject, *c, k)) {
                        (Some(s2), Some(f2)) => Some(Outcome::Continue(s2, f2)),
                        _ => None,
                    },
                    Noun::Atom(_) => None,
                },
                Noun::Atom(3) => match nock(subject, *arg, k) {
                    Some(Noun::Cell(_, _)) => Some(Outcome::Done(Noun::Atom(0))),
                    Some(Noun::Atom(_)) => Some(Outcome::Done(Noun::Atom(1))),
                    None => None,
                },
                Noun::Atom(4) => match nock(subject, *arg, k) {
                    Some(Noun::Atom(x)) => if x < u64::MAX {
                        Some(Outcome::Done(Noun::Atom((x + 1) as u64)))
                    } else {
                        None
                    },
                    _ => None,
                },
                Noun::Atom(5) => match *arg {
                    Noun::Cell(b, c) => match (nock(subject, *b, k), nock(subject, *c, k)) {
                        (Some(x), Some(y)) => Some(
                            Outcome::Done(
                                if x == y {
                                    Noun::Atom(0)
                                } else {
                                    Noun::Atom(1)
                                },
                            ),
                        ),
                        _ => None,
                    },
                    Noun::Atom(_) => None,
                },
                Noun::Atom(6) => match *arg {
                    Noun::Cell(b, c) => match (nock(subject, *b, k), *c) {
                        (Some(t), Noun::Cell(yes, no)) => Some(
                            Outcome::Continue(
                                subject,
                                if t == Noun::Atom(0) {
                                    *yes
                                } else {
                                    *no
                                },
                            ),
                        ),
                        _ => None,
                    },
                    Noun::Atom(_) => None,
                },
                Noun::Atom(7) => match *arg {
                    Noun::Cell(b, c) => match nock(subject, *b, k) {
                        Some(s2) => Some(Outcome::Continue(s2, *c)),
                        None => None,
                    },
                    Noun::Atom(_) => None,
                },
                Noun::Atom(8) => match *arg {
                    Noun::Cell(b, c) => match nock(subject, *b, k) {
                        Some(v) => Some(Outcome::Continue(Noun::pair(v, subject), *c)),
                        None => None,
                    },
                    Noun::Atom(_) => None,
                },
                Noun::Atom(9) => match *arg {
                    Noun::Cell(_, c) => match (nock(subject, *c, k), *c) {
                        (Some(core), Noun::Atom(axis)) => match slot(core, axis as nat) {
                            Some(f2) => Some(Outcome::Continue(core, f2)),
                            None => None,
                        },
                        _ => None,
                    },
                    Noun::Atom(_) => None,
                },
                Noun::Atom(10) => match *arg {
                    Noun::Cell(a, b) => match (nock(subject, *b, k), *a) {
                        (Some(target), Noun::Cell(ax, rep)) => match (*ax, nock(subject, *rep, k)) {
                            (Noun::Atom(axis), Some(replacement)) => match slot(target, axis as nat) {
                                Some(_) => Some(
                                    Outcome::Done(edit(target, axis as nat, replacement).unwrap()),
                                ),
                                None => None,
                            },
                            _ => None,
                        },
                        _ => None,
                    },
                    Noun::Atom(_) => None,
                },
                Noun::Atom(11) => match *arg {
                    Noun::Cell(_, b) => Some(Outcome::Continue(subject, *b)),
                    Noun::Atom(a) => Some(Outcome::Continue(subject, Noun::Atom(a))),
                },
                _ => None,
            },
            Noun::Atom(_) => None,
        }
    }
}

/// The value of `formula` against `subject`, where the evaluation may take
/// at most `fuel` steps (subevaluations included); `None` where it has no
/// value within that fuel.
pub open spec fn nock(subject: Noun, formula: Noun, fuel: nat) -> Option<Noun>
    decreases fuel, 1nat,
{
    if fuel == 0 {
        None
    } else {
        match step(subject, formula, fuel) {
            Some(Outcome::Done(r)) => Some(r),
            Some(Outcome::Continue(s, f)) => nock(s, f, (fuel - 1) as nat),
            None => None,
        }
    }
}

/// More fuel never changes a step that already has an outcome.
pub proof fn lemma_step_monotone(subject: Noun, formula: Noun, n: nat, m: nat)
    requires
        n <= m,
    ensures
        step(subject, formula, n) is Some ==> step(subject, formula, m) == step(subject, formula, n),
    decreases n, 0nat,
{
    if n > 0 {
        let k = (n - 1) as nat;
        let j = (m - 1) as nat;
        let arg = formula.tail();
        lemma_nock_monotone(subject, arg, k, j);
        lemma_nock_monotone(subject, arg.head(), k, j);
        lemma_nock_monotone(subject, arg.tail(), k, j);
        lemma_nock_monotone(subject, arg.head().tail(), k, j);
    }
}

/// More fuel never changes an evaluation that already has a value.
pub proof fn lemma_nock_monotone(subject: Noun, formula: Noun, n: nat, m: nat)
    requires
        n <= m,
    ensures
        nock(subject, formula, n) is Some ==> nock(subject, formula, m) == nock(subject, formula, n),
    decreases n, 1nat,
{
    if n > 0 {
        lemma_step_monotone(subject, formula, n, m);
        if let Some(Outcome::Continue(s, f)) = step(subject, formula, n) {
            lemma_nock_monotone(s, f, (n - 1) as nat, (m - 1) as nat);
        }
    }
}

/// The evaluation of `formula` against `subject` finishes with a value.
pub open spec fn halts(subject: Noun, formula: Noun) -> bool {
    exists|n: nat| #[trigger] nock(subject, formula, n) is Some
}

/// The least fuel with which the evaluation has a value.
pub open spec fn least_fuel(subject: Noun, formula: Noun) -> nat {
    choose|n: nat|
        #[trigger] nock(subject, formula, n) is Some && forall|m: nat|
            m < n ==> #[trigger] nock(subject, formula, m) is None
}

/// The value of `formula` against `subject`, where the evaluation halts.
pub open spec fn nock_result(subject: Noun, formula: Noun) -> Noun {
    nock(subject, formula, least_fuel(subject, formula)).unwrap()
}

proof fn lemma_least_exists(subject: Noun, formula: Noun, n: nat)
    requires
        nock(subject, formula, n) is Some,
    ensures
        exists|k: nat|
            #[trigger] nock(subject, formula, k) is Some && forall|m: nat|
                m < k ==> #[trigger] nock(subject, formula, m) is None,
    decreases n,
{
    if exists|m: nat| m < n && #[trigger] nock(subject, formula, m) is Some {
        let m = choose|m: nat| m < n && #[trigger] nock(subject, formula, m) is Some;
        lemma_least_exists(subject, formula, m);
    } else {
        assert(forall|m: nat| m < n ==> #[trigger] nock(subject, formula, m) is None);
    }
}

/// Whatever fuel suffices gives the same value, and no less fuel than
/// `least_fuel` suffices.
pub proof fn lemma_fuel_bound(subject: Noun, formula: Noun, n: nat)
    requires
        nock(subject, formula, n) is Some,
    ensures
        halts(subject, formula),
        least_fuel(subject, formula) <= n,
        nock(subject, formula, least_fuel(subject, formula)) is Some,
        nock(subject, formula, n) == Some(nock_result(subject, formula)),
{
    lemma_least_exists(subject, formula, n);
    let l = least_fuel(subject, formula);
    if n < l {
        assert(nock(subject, formula, n) is None);
    }
    lemma_nock_monotone(subject, formula, l, n);
}

/// Where the evaluation halts, the least fuel gives it a value.
proof fn lemma_halts_least(subject: Noun, formula: Noun)
    requires
        halts(subject, formula),
    ensures
        nock(subject, formula, least_fuel(subject, formula)) is Some,
        least_fuel(subject, formula) > 0,
        step(subject, formula, least_fuel(subject, formula)) is Some,
{
    let n = choose|n: nat| #[trigger] nock(subject, formula, n) is Some;
    lemma_fuel_bound(subject, formula, n);
}

/// The reduction step of `formula` against `subject` has an outcome: its
/// subevaluations finish and the formula is well formed.
pub open spec fn has_step(subject: Noun, formula: Noun) -> bool {
    exists|n: nat| #[trigger] step(subject, formula, n) is Some
}

/// The least fuel with which the step has an outcome.
pub open spec fn least_step_fuel(subject: Noun, formula: Noun) -> nat {
    choose|n: nat|
        #[trigger] step(subject, formula, n) is Some && forall|m: nat|
            m < n ==> #[trigger] step(subject, formula, m) is None
}

proof fn lemma_least_step_exists(subject: Noun, formula: Noun, n: nat)
    requires
        step(subject, formula, n) is Some,
    ensures
        exists|k: nat|
            #[trigger] step(subject, formula, k) is Some && forall|m: nat|
                m < k ==> #[trigger] step(subject, formula, m) is None,
    decreases n,
{
    if exists|m: nat| m < n && #[trigger] step(subject, formula, m) is Some {
        let m = choose|m: nat| m < n && #[trigger] step(subject, formula, m) is Some;
        lemma_least_step_exists(subject, formula, m);
    } else {
        assert(forall|m: nat| m < n ==> #[trigger] step(subject, formula, m) is None);
    }
}

/// Whatever fuel gives the step an outcome gives the same outcome as the
/// least such fuel, and no less fuel than `least_step_fuel` does.
pub proof fn lemma_step_fuel_bound(subject: Noun, formula: Noun, n: nat)
    requires
        step(subject, formula, n) is Some,
    ensures
        has_step(subject, formula),
        0 < least_step_fuel(subject, formula) <= n,
        step(subject, formula, n) == step(subject, formula, least_step_fuel(subject, formula)),
{
    lemma_least_step_exists(subject, formula, n);
    let l = least_step_fuel(subject, formula);
    if n < l {
        assert(step(subject, formula, n) is None);
    }
    lemma_step_monotone(subject, formula, l, n);
}

/// One unfolding of `nock`: with some fuel, the evaluation's value is the
/// step's final value, or the value of the evaluation it continues with.
pub proof fn lemma_nock_unfold(subject: Noun, formula: Noun, n: nat)
    requires
        n > 0,
    ensures
        nock(subject, formula, n) == match step(subject, formula, n) {
            Some(Outcome::Done(r)) => Some(r),
            Some(Outcome::Continue(s, f)) => nock(s, f, (n - 1) as nat),
            None => None,
        },
{
}

/// Where the evaluation halts, every fuel from `least_fuel` on gives its
/// result.
pub proof fn lemma_value_at(subject: Noun, formula: Noun, n: nat)
    requires
        halts(subject, formula),
        least_fuel(subject, formula) <= n,
    ensures
        nock(subject, formula, n) == Some(nock_result(subject, formula)),
{
    lemma_halts_least(subject, formula);
    lemma_nock_monotone(subject, formula, least_fuel(subject, formula), n);
}

/// Evaluations that have a value with some fuel agree on it.
pub proof fn lemma_nock_deterministic(subject: Noun, formula: Noun, n: nat, m: nat)
    requires
        nock(subject, formula, n) is Some,
        nock(subject, formula, m) is Some,
    ensures
        nock(subject, formula, n) == nock(subject, formula, m),
{
    if n <= m {
        lemma_nock_monotone(subject, formula, n, m);
    } else {
        lemma_nock_monotone(subject, formula, m, n);
    }
}

/// An atom is no formula: evaluating it never yields a value.
pub proof fn lemma_atom_formula_never_halts(subject: Noun, x: u64)
    ensures
        !halts(subject, Noun::Atom(x)),
{
    assert forall|n: nat| #[trigger] nock(subject, Noun::Atom(x), n) is None by {
        if n > 0 {
            assert(step(subject, Noun::Atom(x), n) is None);
        }
    }
}

/// A formula with opcode 9 never yields a value: the arm's axis is taken
/// from the formula that was just evaluated for the core, so that formula
/// would have to be an atom, and an atom never yields a value.
pub proof fn lemma_opcode_nine_never_halts(subject: Noun, arg: Noun)
    ensures
        !halts(subject, Noun::pair(Noun::Atom(9), arg)),
{
    let formula = Noun::pair(Noun::Atom(9), arg);
    assert forall|n: nat| #[trigger] nock(subject, formula, n) is None by {
        if n > 0 {
            if let Noun::Atom(x) = arg.tail() {
                lemma_atom_formula_never_halts(subject, x);
                assert(nock(subject, arg.tail(), (n - 1) as nat) is None);
            }
            assert(step(subject, formula, n) is None);
        }
    }
}

/// Performs one reduction step of `formula` against `subject`.
#[verifier::rlimit(100)]
fn eval_step(subject: Noun, formula: Noun) -> (out: Outcome)
    requires
        has_step(subject, formula),
    ensures
        forall|n: nat| #[trigger]
            step(subject, formula, n) is Some ==> step(subject, formula, n) == Some(out),
    decreases least_step_fuel(subject, formula), 0nat,
{
    let ghost l = least_step_fuel(subject, formula);
    let ghost k = (l - 1) as nat;
    let ghost s0 = subject;
    let ghost f0 = formula;
    let ghost arg = formula.tail();
    proof {
        let n = choose|n: nat| #[trigger] step(subject, formula, n) is Some;
        lemma_step_fuel_bound(subject, formula, n);
        assert forall|n: nat| #[trigger]
            step(s0, f0, n) is Some implies step(s0, f0, n) == step(s0, f0, l) by {
            lemma_step_fuel_bound(s0, f0, n);
        }
    }
    match formula {
        Noun::Atom(_) => Outcome::Done(Noun::Atom(0)),
        Noun::Cell(x, y) => {
            let op: u64 = match &*x {
                Noun::Atom(n) => *n,
                Noun::Cell(_, _) => {
                    return Outcome::Done(Noun::Atom(0));
                },
            };
            match op {
                0 => match &*y {
                    Noun::Atom(a) => Outcome::Done(tree_get(subject, *a)),
                    Noun::Cell(_, _) => Outcome::Done(Noun::Atom(0)),
                },
                1 => Outcome::Done((*y).duplicate()),
                2 => match &*y {
                    Noun::Cell(b, c) => {
                        proof {
                            lemma_fuel_bound(s0, arg.head(), k);
                            lemma_fuel_bound(s0, arg.tail(), k);
                        }
                        let new_subject = eval(subject.duplicate(), (**b).duplicate());
                        let new_formula = eval(subject, (**c).duplicate());
                        Outcome::Continue(new_subject, new_formula)
                    },
                    Noun::Atom(_) => Outcome::Done(Noun::Atom(0)),
                },
                3 => {
                    proof {
                        lemma_fuel_bound(s0, arg, k);
                    }
                    match eval(subject, (*y).duplicate()) {
                        Noun::Cell(_, _) => Outcome::Done(Noun::Atom(0)),
                        Noun::Atom(_) => Outcome::Done(Noun::Atom(1)),
                    }
                },
                4 => {
                    proof {
                        lemma_fuel_bound(s0, arg, k);
                    }
                    match eval(subject, (*y).duplicate()) {
                        Noun::Atom(v) => Outcome::Done(Noun::Atom(v + 1)),
                        Noun::Cell(_, _) => Outcome::Done(Noun::Atom(0)),
                    }
                },
                5 => match &*y {
                    Noun::Cell(b, c) => {
                        proof {
                            lemma_fuel_bound(s0, arg.head(), k);
                            lemma_fuel_bound(s0, arg.tail(), k);
                        }
                        let left = eval(subject.duplicate(), (**b).duplicate());
                        let right = eval(subject, (**c).duplicate());
                        if left == right {
                            Outcome::Done(Noun::Atom(0))
                        } else {
                            Outcome::Done(Noun::Atom(1))
                        }
                    },
                    Noun::Atom(_) => Outcome::Done(Noun::Atom(0)),
                },
                6 => match &*y {
                    Noun::Cell(b, c) => {
                        proof {
                            lemma_fuel_bound(s0, arg.head(), k);
                        }
                        let test = eval(subject.duplicate(), (**b).duplicate());
                        if test == Noun::Atom(0) {
                            Outcome::Continue(subject, left_get((**c).duplicate()))
                        } else {
                            Outcome::Continue(subject, right_get((**c).duplicate()))
                        }
                    },
                    Noun::Atom(_) => Outcome::Done(Noun::Atom(0)),
                },
                7 => match &*y {
                    Noun::Cell(a, b) => {
                        proof {
                            lemma_fuel_bound(s0, arg.head(), k);
                        }
                        Outcome::Continue(eval(subject, (**a).duplicate()), (**b).duplicate())
                    },
                    Noun::Atom(_) => Outcome::Done(Noun::Atom(0)),
                },
                8 => match &*y {
                    Noun::Cell(a, b) => {
                        proof {
                            lemma_fuel_bound(s0, arg.head(), k);
                        }
                        let pushed = eval(subject.duplicate(), (**a).duplicate());
                        Outcome::Continue(Noun::cons(pushed, subject), (**b).duplicate())
                    },
                    Noun::Atom(_) => Outcome::Done(Noun::Atom(0)),
                },
                9 => match &*y {
                    Noun::Cell(_a, b) => {
                        proof {
                            lemma_fuel_bound(s0, arg.tail(), k);
                        }
                        let core = eval(subject, (**b).duplicate());
                        let arm = tree_get(core.duplicate(), number_get((**b).duplicate()));
                        Outcome::Continue(core, arm)
                    },
                    Noun::Atom(_) => Outcome::Done(Noun::Atom(0)),
                },
                10 => match &*y {
                    Noun::Cell(a, b) => {
                        proof {
                            lemma_fuel_bound(s0, arg.tail(), k);
                            lemma_fuel_bound(s0, arg.head().tail(), k);
                        }
                        let noun = eval(subject.duplicate(), (**b).duplicate());
                        let replacement = eval(subject, right_get((**a).duplicate()));
                        let axis = number_get(left_get((**a).duplicate()));
                        Outcome::Done(tree_set(noun, axis, replacement))
                    },
                    Noun::Atom(_) => Outcome::Done(Noun::Atom(0)),
                },
                11 => match &*y {
                    Noun::Cell(_a, b) => Outcome::Continue(subject, (**b).duplicate()),
                    Noun::Atom(a) => Outcome::Continue(subject, Noun::Atom(*a)),
                },
                _ => Outcome::Done(Noun::Atom(0)),
            }
        },
    }
}

/// Where the evaluation halts, every fuel that gives it a value gives its
/// result.
proof fn lemma_result_agrees(subject: Noun, formula: Noun)
    requires
        halts(subject, formula),
    ensures
        forall|n: nat| #[trigger]
            nock(subject, formula, n) is Some ==> nock(subject, formula, n) == Some(
                nock_result(subject, formula),
            ),
{
    assert forall|n: nat| #[trigger]
        nock(subject, formula, n) is Some implies nock(subject, formula, n) == Some(
        nock_result(subject, formula),
    ) by {
        lemma_fuel_bound(subject, formula, n);
    }
}

/// Where the evaluation halts, its step has an outcome, with no more fuel.
proof fn lemma_halts_has_step(subject: Noun, formula: Noun)
    requires
        halts(subject, formula),
    ensures
        has_step(subject, formula),
        least_step_fuel(subject, formula) <= least_fuel(subject, formula),
{
    lemma_halts_least(subject, formula);
    lemma_step_fuel_bound(subject, formula, least_fuel(subject, formula));
}

/// Where the evaluation halts, the outcome of its step either is its value
/// or continues with an evaluation that halts sooner with the same value.
proof fn lemma_step_of_halting(subject: Noun, formula: Noun, out: Outcome)
    requires
        halts(subject, formula),
        forall|n: nat| #[trigger]
            step(subject, formula, n) is Some ==> step(subject, formula, n) == Some(out),
    ensures
        match out {
            Outcome::Done(x) => x == nock_result(subject, formula),
            Outcome::Continue(a, b) => {
                &&& halts(a, b)
                &&& least_fuel(a, b) < least_fuel(subject, formula)
                &&& nock_result(a, b) == nock_result(subject, formula)
            },
        },
{
    lemma_halts_least(subject, formula);
    let l = least_fuel(subject, formula);
    assert(step(subject, formula, l) == Some(out));
    if let Outcome::Continue(a, b) = out {
        lemma_fuel_bound(a, b, (l - 1) as nat);
    }
}

/// Evaluates `formula` against `subject`: performs reduction steps until one
/// yields a final value.
#[verifier::rlimit(100)]
pub fn eval(subject: Noun, formula: Noun) -> (result: Noun)
    requires
        halts(subject, formula),
    ensures
        result == nock_result(subject, formula),
        forall|n: nat| #[trigger]
            nock(subject, formula, n) is Some ==> nock(subject, formula, n) == Some(result),
    decreases least_fuel(subject, formula), 1nat,
{
    let ghost s0 = subject;
    let ghost f0 = formula;
    let mut s = subject;
    let mut f = formula;
    #[verifier::loop_isolation(false)]
    loop
        invariant
            halts(s, f),
            nock_result(s, f) == nock_result(s0, f0),
            least_fuel(s, f) <= least_fuel(s0, f0),
        decreases least_fuel(s, f),
    {
        let ghost sl = s;
        let ghost fl = f;
        proof {
            lemma_halts_has_step(s, f);
        }
        let out = eval_step(s, f);
        proof {
            lemma_step_of_halting(sl, fl, out);
        }
        match out {
            Outcome::Done(x) => {
                proof {
                    lemma_result_agrees(s0, f0);
                }
                return x;
            },
            Outcome::Continue(a, b) => {
                s = a;
                f = b;
            },
        }
    }
}

/// Performs one reduction step of `formula` against `subject`, giving each
/// subevaluation `fuel - 1` steps; `None` where the step has no outcome.
#[verifier::rlimit(100)]
fn step_within(subject: Noun, formula: Noun, fuel: u64) -> (out: Option<Outcome>)
    ensures
        out == step(subject, formula, fuel as nat),
    decreases fuel, 0nat,
{
    if fuel == 0 {
        return None;
    }
    let k: u64 = fuel - 1;
    let (op, y) = match formula {
        Noun::Atom(_) => {
            return None;
        },
        Noun::Cell(x, y) => match &*x {
            Noun::Atom(n) => (*n, y),
            Noun::Cell(_, _) => {
                return None;
            },
        },
    };
    match op {
        0 => match &*y {
            Noun::Atom(a) => {
                if slot_exists(&subject, *a) {
                    Some(Outcome::Done(tree_get(subject, *a)))
                } else {
                    None
                }
            },
            Noun::Cell(_, _) => None,
        },
        1 => Some(Outcome::Done((*y).duplicate())),
        2 => match &*y {
            Noun::Cell(b, c) => match eval_within(subject.duplicate(), (**b).duplicate(), k) {
                Some(new_subject) => match eval_within(subject, (**c).duplicate(), k) {
                    Some(new_formula) => Some(Outcome::Continue(new_subject, new_formula)),
                    None => None,
                },
                None => None,
            },
            Noun::Atom(_) => None,
        },
        3 => match eval_within(subject, (*y).duplicate(), k) {
            Some(Noun::Cell(_, _)) => Some(Outcome::Done(Noun::Atom(0))),
            Some(Noun::Atom(_)) => Some(Outcome::Done(Noun::Atom(1))),
            None => None,
        },
        4 => match eval_within(subject, (*y).duplicate(), k) {
            Some(Noun::Atom(v)) => if v < u64::MAX {
                Some(Outcome::Done(Noun::Atom(v + 1)))
            } else {
                None
            },
            _ => None,
        },
        5 => match &*y {
            Noun::Cell(b, c) => match eval_within(subject.duplicate(), (**b).duplicate(), k) {
                Some(left) => match eval_within(subject, (**c).duplicate(), k) {
                    Some(right) => if left == right {
                        Some(Outcome::Done(Noun::Atom(0)))
                    } else {
                        Some(Outcome::Done(Noun::Atom(1)))
                    },
                    None => None,
                },
                None => None,
            },
            Noun::Atom(_) => None,
        },
        6 => match &*y {
            Noun::Cell(b, c) => match eval_within(subject.duplicate(), (**b).duplicate(), k) {
                Some(test) => match &**c {
                    Noun::Cell(yes, no) => if test == Noun::Atom(0) {
                        Some(Outcome::Continue(subject, (**yes).duplicate()))
                    } else {
                        Some(Outcome::Continue(subject, (**no).duplicate()))
                    },
                    Noun::Atom(_) => None,
                },
                None => None,
            },
            Noun::Atom(_) => None,
        },
        7 => match &*y {
            Noun::Cell(a, b) => match eval_within(subject, (**a).duplicate(), k) {
                Some(new_subject) => Some(Outcome::Continue(new_subject, (**b).duplicate())),
                None => None,
            },
            Noun::Atom(_) => None,
        },
        8 => match &*y {
            Noun::Cell(a, b) => match eval_within(subject.duplicate(), (**a).duplicate(), k) {
                Some(pushed) => Some(Outcome::Continue(Noun::cons(pushed, subject), (**b).duplicate())),
                None => None,
            },
            Noun::Atom(_) => None,
        },
        9 => match &*y {
            Noun::Cell(_a, b) => match eval_within(subject, (**b).duplicate(), k) {
                Some(core) => match &**b {
                    Noun::Atom(axis) => if slot_exists(&core, *axis) {
                        let arm = tree_get(core.duplicate(), *axis);
                        Some(Outcome::Continue(core, arm))
                    } else {
                        None
                    },
                    Noun::Cell(_, _) => None,
                },
                None => None,
            },
            Noun::Atom(_) => None,
        },
        10 => match &*y {
            Noun::Cell(a, b) => match eval_within(subject.duplicate(), (**b).duplicate(), k) {
                Some(target) => match &**a {
                    Noun::Cell(ax, rep) => match &**ax {
                        Noun::Atom(axis) => match eval_within(subject, (**rep).duplicate(), k) {
                            Some(replacement) => if slot_exists(&target, *axis) {
                                Some(Outcome::Done(tree_set(target, *axis, replacement)))
                            } else {
                                None
                            },
                            None => None,
                        },
                        Noun::Cell(_, _) => None,
                    },
                    Noun::Atom(_) => None,
                },
                None => None,
            },
            Noun::Atom(_) => None,
        },
        11 => match &*y {
            Noun::Cell(_a, b) => Some(Outcome::Continue(subject, (**b).duplicate())),
            Noun::Atom(a) => Some(Outcome::Continue(subject, Noun::Atom(*a))),
        },
        _ => None,
    }
}

/// Evaluates `formula` against `subject` within `fuel` steps (each
/// subevaluation counted); `None` where the evaluation has no value within
/// that fuel.
pub fn eval_within(subject: Noun, formula: Noun, fuel: u64) -> (result: Option<Noun>)
    ensures
        result == nock(subject, formula, fuel as nat),
    decreases fuel, 1nat,
{
    let ghost s0 = subject;
    let ghost f0 = formula;
    let mut s = subject;
    let mut f = formula;
    let mut n: u64 = fuel;
    #[verifier::loop_isolation(false)]
    loop
        invariant
            n <= fuel,
            nock(s, f, n as nat) == nock(s0, f0, fuel as nat),
        decreases n,
    {
        if n == 0 {
            return None;
        }
        match step_within(s, f, n) {
            None => {
                return None;
            },
            Some(Outcome::Done(x)) => {
                return Some(x);
            },
            Some(Outcome::Continue(a, b)) => {
                s = a;
                f = b;
                n = n - 1;
            },
        }
    }
}

} // verus!
