use vstd::prelude::*;

use crate::interp::{step, Outcome, lemma_nock_unfold, halts, lemma_fuel_bound, lemma_value_at, least_fuel, nock, nock_result};
use crate::noun::Noun;
use crate::tree::{disjoint, lemma_edit_keeps_disjoint, lemma_slot_after_edit, slot};

verus! {

/// The formula `[op arg]`.
pub open spec fn formula(op: u64, arg: Noun) -> Noun {
    Noun::pair(Noun::Atom(op), arg)
}

/// Nock 0: `*[a 0 x]` is the slot of `a` at axis `x`, and has no value
/// where there is none.
pub proof fn law_slot(a: Noun, x: u64)
    ensures
        halts(a, formula(0, Noun::Atom(x))) <==> slot(a, x as nat) is Some,
        slot(a, x as nat) is Some ==> nock_result(a, formula(0, Noun::Atom(x))) == slot(
            a,
            x as nat,
        ).unwrap(),
{
    let f = formula(0, Noun::Atom(x));
    if slot(a, x as nat) is Some {
        assert(step(a, f, 1) == Some(Outcome::Done(slot(a, x as nat).unwrap())));
        lemma_nock_unfold(a, f, 1);
        lemma_fuel_bound(a, f, 1);
    } else {
        assert forall|n: nat| #[trigger] nock(a, f, n) is None by {
            if n > 0 {
                assert(step(a, f, n) is None);
                lemma_nock_unfold(a, f, n);
            }
        }
    }
}

/// Nock 1: `*[a 1 b]` is `b`.
pub proof fn law_constant(a: Noun, b: Noun)
    ensures
        halts(a, formula(1, b)),
        nock_result(a, formula(1, b)) == b,
{
    assert(step(a, formula(1, b), 1) == Some(Outcome::Done(b)));
    lemma_nock_unfold(a, formula(1, b), 1);
    assert(nock(a, formula(1, b), 1) == Some(b));
    lemma_fuel_bound(a, formula(1, b), 1);
}

/// Nock 2: `*[a 2 b c]` is `*[*[a b] *[a c]]`.
#[verifier::rlimit(100)]
pub proof fn law_evaluate(a: Noun, b: Noun, c: Noun)
    requires
        halts(a, b),
        halts(a, c),
        halts(nock_result(a, b), nock_result(a, c)),
    ensures
        halts(a, formula(2, Noun::pair(b, c))),
        nock_result(a, formula(2, Noun::pair(b, c))) == nock_result(
            nock_result(a, b),
            nock_result(a, c),
        ),
{
    let s2 = nock_result(a, b);
    let f2 = nock_result(a, c);
    let n = least_fuel(a, b) + least_fuel(a, c) + least_fuel(s2, f2);
    lemma_value_at(a, b, n);
    lemma_value_at(a, c, n);
    lemma_value_at(s2, f2, n);
    let f = formula(2, Noun::pair(b, c));
    assert(step(a, f, n + 1) == Some(Outcome::Continue(s2, f2)));
    lemma_nock_unfold(a, f, n + 1);
    lemma_fuel_bound(a, f, n + 1);
}

/// Nock 3: `*[a 3 b]` is 0 where `*[a b]` is a cell and 1 where it is an
/// atom.
pub proof fn law_is_cell(a: Noun, b: Noun)
    requires
        halts(a, b),
    ensures
        halts(a, formula(3, b)),
        nock_result(a, formula(3, b)) == if nock_result(a, b) is Cell {
            Noun::Atom(0)
        } else {
            Noun::Atom(1)
        },
{
    let n = least_fuel(a, b);
    lemma_value_at(a, b, n);
    let f = formula(3, b);
    assert(step(a, f, n + 1) == Some(Outcome::Done(
        if nock_result(a, b) is Cell {
            Noun::Atom(0)
        } else {
            Noun::Atom(1)
        },
    )));
    lemma_nock_unfold(a, f, n + 1);
    lemma_fuel_bound(a, f, n + 1);
}

/// Nock 4: `*[a 4 b]` is `*[a b] + 1`; it has no value where `*[a b]` is a
/// cell or the largest atom.
pub proof fn law_increment(a: Noun, b: Noun)
    requires
        halts(a, b),
    ensures
        halts(a, formula(4, b)) <==> (nock_result(a, b) matches Noun::Atom(x) && x < u64::MAX),
        nock_result(a, b) matches Noun::Atom(x) ==> (x < u64::MAX ==> nock_result(a, formula(4, b))
            == Noun::Atom((x + 1) as u64)),
{
    let n = least_fuel(a, b);
    lemma_value_at(a, b, n);
    let f = formula(4, b);
    if let Noun::Atom(x) = nock_result(a, b) {
        if x < u64::MAX {
            assert(step(a, f, n + 1) == Some(Outcome::Done(Noun::Atom((x + 1) as u64))));
            lemma_nock_unfold(a, f, n + 1);
            lemma_fuel_bound(a, f, n + 1);
            return;
        }
    }
    assert forall|m: nat| #[trigger] nock(a, f, m) is None by {
        if m > 0 {
            if nock(a, b, (m - 1) as nat) is Some {
                lemma_fuel_bound(a, b, (m - 1) as nat);
            }
            assert(step(a, f, m) is None);
            lemma_nock_unfold(a, f, m);
        }
    }
}

/// Nock 5: `*[a 5 b c]` is 0 exactly where `*[a b]` and `*[a c]` are equal
/// nouns, cells included, and 1 otherwise.
#[verifier::rlimit(100)]
pub proof fn law_equals(a: Noun, b: Noun, c: Noun)
    requires
        halts(a, b),
        halts(a, c),
    ensures
        halts(a, formula(5, Noun::pair(b, c))),
        (nock_result(a, formula(5, Noun::pair(b, c))) == Noun::Atom(0)) <==> (nock_result(a, b)
            == nock_result(a, c)),
        (nock_result(a, formula(5, Noun::pair(b, c))) == Noun::Atom(1)) <==> (nock_result(a, b)
            != nock_result(a, c)),
{
    let n = least_fuel(a, b) + least_fuel(a, c);
    lemma_value_at(a, b, n);
    lemma_value_at(a, c, n);
    let f = formula(5, Noun::pair(b, c));
    let r = if nock_result(a, b) == nock_result(a, c) {
        Noun::Atom(0)
    } else {
        Noun::Atom(1)
    };
    assert(step(a, f, n + 1) == Some(Outcome::Done(r)));
    lemma_nock_unfold(a, f, n + 1);
    lemma_fuel_bound(a, f, n + 1);
}

/// Nock 6: `*[a 6 b c d]` is `*[a c]` where `*[a b]` is 0, and `*[a d]`
/// otherwise.
#[verifier::rlimit(100)]
pub proof fn law_if(a: Noun, b: Noun, c: Noun, d: Noun)
    requires
        halts(a, b),
        halts(
            a,
            if nock_result(a, b) == Noun::Atom(0) {
                c
            } else {
                d
            },
        ),
    ensures
        halts(a, formula(6, Noun::pair(b, Noun::pair(c, d)))),
        nock_result(a, formula(6, Noun::pair(b, Noun::pair(c, d)))) == nock_result(
            a,
            if nock_result(a, b) == Noun::Atom(0) {
                c
            } else {
                d
            },
        ),
{
    let branch = if nock_result(a, b) == Noun::Atom(0) {
        c
    } else {
        d
    };
    let n = least_fuel(a, b) + least_fuel(a, branch);
    lemma_value_at(a, b, n);
    lemma_value_at(a, branch, n);
    let f = formula(6, Noun::pair(b, Noun::pair(c, d)));
    assert(step(a, f, n + 1) == Some(Outcome::Continue(a, branch)));
    lemma_nock_unfold(a, f, n + 1);
    lemma_fuel_bound(a, f, n + 1);
}

/// Nock 7: `*[a 7 b c]` is `*[*[a b] c]`.
pub proof fn law_compose(a: Noun, b: Noun, c: Noun)
    requires
        halts(a, b),
        halts(nock_result(a, b), c),
    ensures
        halts(a, formula(7, Noun::pair(b, c))),
        nock_result(a, formula(7, Noun::pair(b, c))) == nock_result(nock_result(a, b), c),
{
    let s2 = nock_result(a, b);
    let n = least_fuel(a, b) + least_fuel(s2, c);
    lemma_value_at(a, b, n);
    lemma_value_at(s2, c, n);
    let f = formula(7, Noun::pair(b, c));
    assert(step(a, f, n + 1) == Some(Outcome::Continue(s2, c)));
    lemma_nock_unfold(a, f, n + 1);
    lemma_fuel_bound(a, f, n + 1);
}

/// Nock 8: `*[a 8 b c]` is `*[[*[a b] a] c]`.
pub proof fn law_push(a: Noun, b: Noun, c: Noun)
    requires
        halts(a, b),
        halts(Noun::pair(nock_result(a, b), a), c),
    ensures
        halts(a, formula(8, Noun::pair(b, c))),
        nock_result(a, formula(8, Noun::pair(b, c))) == nock_result(
            Noun::pair(nock_result(a, b), a),
            c,
        ),
{
    let s2 = Noun::pair(nock_result(a, b), a);
    let n = least_fuel(a, b) + least_fuel(s2, c);
    lemma_value_at(a, b, n);
    lemma_value_at(s2, c, n);
    let f = formula(8, Noun::pair(b, c));
    assert(step(a, f, n + 1) == Some(Outcome::Continue(s2, c)));
    lemma_nock_unfold(a, f, n + 1);
    lemma_fuel_bound(a, f, n + 1);
}

/// Nock 10: `*[a 10 [x c] d]` is `*[a d]` with `*[a c]` put at axis `x`: it
/// holds `*[a c]` at `x` and agrees with `*[a d]` at every axis disjoint
/// from `x`.
#[verifier::rlimit(100)]
pub proof fn law_edit(a: Noun, x: u64, c: Noun, d: Noun)
    requires
        halts(a, c),
        halts(a, d),
        slot(nock_result(a, d), x as nat) is Some,
    ensures
        halts(a, formula(10, Noun::pair(Noun::pair(Noun::Atom(x), c), d))),
        slot(nock_result(a, formula(10, Noun::pair(Noun::pair(Noun::Atom(x), c), d))), x as nat)
            == Some(nock_result(a, c)),
        forall|b: nat|
            disjoint(x as nat, b) ==> #[trigger] slot(
                nock_result(a, formula(10, Noun::pair(Noun::pair(Noun::Atom(x), c), d))),
                b,
            ) == slot(nock_result(a, d), b),
{
    let target = nock_result(a, d);
    let replacement = nock_result(a, c);
    let n = least_fuel(a, c) + least_fuel(a, d);
    lemma_value_at(a, c, n);
    lemma_value_at(a, d, n);
    lemma_slot_after_edit(target, x as nat, replacement);
    let edited = crate::tree::edit(target, x as nat, replacement).unwrap();
    let f = formula(10, Noun::pair(Noun::pair(Noun::Atom(x), c), d));
    assert(step(a, f, n + 1) == Some(Outcome::Done(edited)));
    lemma_nock_unfold(a, f, n + 1);
    lemma_fuel_bound(a, f, n + 1);
    assert forall|b: nat| disjoint(x as nat, b) implies #[trigger] slot(edited, b) == slot(
        target,
        b,
    ) by {
        lemma_edit_keeps_disjoint(target, x as nat, replacement, b);
    }
}

/// Nock 11: `*[a 11 h d]` is `*[a d]`: the hint `h` is ignored.
pub proof fn law_hint(a: Noun, h: Noun, d: Noun)
    requires
        halts(a, d),
    ensures
        halts(a, formula(11, Noun::pair(h, d))),
        nock_result(a, formula(11, Noun::pair(h, d))) == nock_result(a, d),
{
    let n = least_fuel(a, d);
    lemma_value_at(a, d, n);
    let f = formula(11, Noun::pair(h, d));
    assert(step(a, f, n + 1) == Some(Outcome::Continue(a, d)));
    lemma_nock_unfold(a, f, n + 1);
    lemma_fuel_bound(a, f, n + 1);
}


/// A formula whose opcode is no number from 0 to 11 has no value.
pub proof fn law_unknown_opcode(a: Noun, op: u64, arg: Noun)
    requires
        op > 11,
    ensures
        !halts(a, formula(op, arg)),
{
    let f = formula(op, arg);
    assert forall|n: nat| #[trigger] nock(a, f, n) is None by {
        if n > 0 {
            assert(step(a, f, n) is None);
            lemma_nock_unfold(a, f, n);
        }
    }
}

/// A formula whose head is a cell has no value.
pub proof fn law_cell_head(a: Noun, p: Noun, q: Noun, arg: Noun)
    ensures
        !halts(a, Noun::pair(Noun::pair(p, q), arg)),
{
    let f = Noun::pair(Noun::pair(p, q), arg);
    assert forall|n: nat| #[trigger] nock(a, f, n) is None by {
        if n > 0 {
            assert(step(a, f, n) is None);
            lemma_nock_unfold(a, f, n);
        }
    }
}

/// Opcodes 2, 5, 6, 7, 8 and 10 take a cell as argument: with an atom they
/// have no value.
pub proof fn law_atom_argument(a: Noun, op: u64, x: u64)
    requires
        op == 2 || op == 5 || op == 6 || op == 7 || op == 8 || op == 10,
    ensures
        !halts(a, formula(op, Noun::Atom(x))),
{
    let f = formula(op, Noun::Atom(x));
    assert forall|n: nat| #[trigger] nock(a, f, n) is None by {
        if n > 0 {
            assert(step(a, f, n) is None);
            lemma_nock_unfold(a, f, n);
        }
    }
}

/// Opcode 11 with an atom `x` as argument continues with `x` as formula, so
/// it has no value.
pub proof fn law_hint_atom(a: Noun, x: u64)
    ensures
        !halts(a, formula(11, Noun::Atom(x))),
{
    let f = formula(11, Noun::Atom(x));
    assert forall|n: nat| #[trigger] nock(a, f, n) is None by {
        if n > 0 {
            assert(step(a, f, n) == Some(Outcome::Continue(a, Noun::Atom(x))));
            lemma_nock_unfold(a, f, n);
            if n > 1 {
                let m = (n - 1) as nat;
                assert(step(a, Noun::Atom(x), m) is None);
                lemma_nock_unfold(a, Noun::Atom(x), m);
            }
        }
    }
}

/// A formula has a value only if the subformulas it evaluates first have
/// one: `b` for opcodes 2, 5, 6, 7 and 8 on `[b c]` (and `c` as well for
/// opcodes 2 and 5), and the whole argument for opcodes 3 and 4.
#[verifier::rlimit(100)]
pub proof fn law_parts_halt(a: Noun, op: u64, b: Noun, c: Noun)
    requires
        halts(a, formula(op, Noun::pair(b, c))),
    ensures
        (op == 2 || op == 5 || op == 6 || op == 7 || op == 8) ==> halts(a, b),
        (op == 2 || op == 5) ==> halts(a, c),
        (op == 3 || op == 4) ==> halts(a, Noun::pair(b, c)),
{
    let f = formula(op, Noun::pair(b, c));
    let l = least_fuel(a, f);
    lemma_value_at(a, f, l);
    assert(l > 0);
    lemma_nock_unfold(a, f, l);
    let k = (l - 1) as nat;
    assert(step(a, f, l) is Some);
    if op == 2 || op == 5 || op == 6 || op == 7 || op == 8 {
        assert(nock(a, b, k) is Some);
        lemma_fuel_bound(a, b, k);
    }
    if op == 2 || op == 5 {
        assert(nock(a, c, k) is Some);
        lemma_fuel_bound(a, c, k);
    }
    if op == 3 || op == 4 {
        assert(nock(a, Noun::pair(b, c), k) is Some);
        lemma_fuel_bound(a, Noun::pair(b, c), k);
    }
}

/// Malformed arguments give no value: opcode 0 with a cell for an axis,
/// opcode 6 whose branches are an atom, and opcode 10 whose `[axis
/// replacement]` part is an atom or has a cell for an axis.
pub proof fn law_malformed_argument(a: Noun, p: Noun, q: Noun, b: Noun, x: u64)
    ensures
        !halts(a, formula(0, Noun::pair(p, q))),
        !halts(a, formula(6, Noun::pair(b, Noun::Atom(x)))),
        !halts(a, formula(10, Noun::pair(Noun::Atom(x), b))),
        !halts(a, formula(10, Noun::pair(Noun::pair(Noun::pair(p, q), b), b))),
{
    let f0 = formula(0, Noun::pair(p, q));
    let f6 = formula(6, Noun::pair(b, Noun::Atom(x)));
    let f10a = formula(10, Noun::pair(Noun::Atom(x), b));
    let f10c = formula(10, Noun::pair(Noun::pair(Noun::pair(p, q), b), b));
    assert forall|n: nat| #[trigger] nock(a, f0, n) is None by {
        if n > 0 {
            assert(step(a, f0, n) is None);
            lemma_nock_unfold(a, f0, n);
        }
    }
    assert forall|n: nat| #[trigger] nock(a, f6, n) is None by {
        if n > 0 {
            assert(step(a, f6, n) is None);
            lemma_nock_unfold(a, f6, n);
        }
    }
    assert forall|n: nat| #[trigger] nock(a, f10a, n) is None by {
        if n > 0 {
            assert(step(a, f10a, n) is None);
            lemma_nock_unfold(a, f10a, n);
        }
    }
    assert forall|n: nat| #[trigger] nock(a, f10c, n) is None by {
        if n > 0 {
            assert(step(a, f10c, n) is None);
            lemma_nock_unfold(a, f10c, n);
        }
    }
}

/// Nock 10 has no value where the target has no slot at the axis.
#[verifier::rlimit(100)]
pub proof fn law_edit_missing_slot(a: Noun, x: u64, c: Noun, d: Noun)
    requires
        halts(a, d),
        slot(nock_result(a, d), x as nat) is None,
    ensures
        !halts(a, formula(10, Noun::pair(Noun::pair(Noun::Atom(x), c), d))),
{
    let f = formula(10, Noun::pair(Noun::pair(Noun::Atom(x), c), d));
    assert forall|n: nat| #[trigger] nock(a, f, n) is None by {
        if n > 0 {
            let k = (n - 1) as nat;
            if nock(a, d, k) is Some {
                lemma_fuel_bound(a, d, k);
            }
            assert(step(a, f, n) is None);
            lemma_nock_unfold(a, f, n);
        }
    }
}

} // verus!
