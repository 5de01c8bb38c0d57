use vstd::prelude::*;

use crate::noun::{left_get, right_get, Noun};

verus! {

/// Nock's slot operator `/`: the subnoun of `noun` found at `axis`, where
/// axis 1 is the whole noun, and the head and tail of the subnoun at axis
/// `a` are at axes `2a` and `2a + 1`.  There is none at axis 0, nor where
/// the path runs into an atom.
pub open spec fn slot(noun: Noun, axis: nat) -> Option<Noun>
    decreases axis,
{
    if axis == 0 {
        None
    } else if axis == 1 {
        Some(noun)
    } else {
        match slot(noun, axis / 2) {
            Some(Noun::Cell(h, t)) => Some(
                if axis % 2 == 0 {
                    *h
                } else {
                    *t
                },
            ),
            _ => None,
        }
    }
}

/// Nock's edit operator `#`: the noun obtained from `noun` by putting
/// `replacement` at `axis`.  It rebuilds the path bottom-up: the new child
/// is paired with its old sibling and put at the parent's axis.
pub open spec fn edit(noun: Noun, axis: nat, replacement: Noun) -> Option<Noun>
    decreases axis,
{
    if axis == 0 {
        None
    } else if axis == 1 {
        Some(replacement)
    } else if axis % 2 == 0 {
        match slot(noun, axis + 1) {
            Some(sibling) => edit(noun, axis / 2, Noun::pair(replacement, sibling)),
            None => None,
        }
    } else {
        match slot(noun, (axis - 1) as nat) {
            Some(sibling) => edit(noun, axis / 2, Noun::pair(sibling, replacement)),
            None => None,
        }
    }
}

/// `b` lies in the subtree rooted at axis `a` (`a` itself included).
pub open spec fn under(b: nat, a: nat) -> bool
    decreases b,
{
    b == a || (b > 1 && under(b / 2, a))
}

/// Axes `a` and `b` are disjoint: neither lies in the subtree of the other.
pub open spec fn disjoint(a: nat, b: nat) -> bool {
    !under(a, b) && !under(b, a)
}

/// Returns the subnoun of `noun` at `address`.
pub fn tree_get(noun: Noun, address: u64) -> (sub: Noun)
    requires
        slot(noun, address as nat) is Some,
    ensures
        slot(noun, address as nat) == Some(sub),
    decreases address,
{
    if address == 1 {
        noun
    } else if address % 2 == 0 {
        left_get(tree_get(noun, address / 2))
    } else {
        right_get(tree_get(noun, address / 2))
    }
}

/// The subnoun of `noun` at `axis`, borrowed; `None` where there is none.
fn slot_ref(noun: &Noun, axis: u64) -> (sub: Option<&Noun>)
    ensures
        match sub {
            Some(x) => slot(*noun, axis as nat) == Some(*x),
            None => slot(*noun, axis as nat) is None,
        },
    decreases axis,
{
    if axis == 0 {
        None
    } else if axis == 1 {
        Some(noun)
    } else {
        match slot_ref(noun, axis / 2) {
            Some(Noun::Cell(h, t)) => if axis % 2 == 0 {
                Some(&**h)
            } else {
                Some(&**t)
            },
            _ => None,
        }
    }
}

/// Whether `noun` has a subnoun at `axis`.
pub fn slot_exists(noun: &Noun, axis: u64) -> (found: bool)
    ensures
        found == slot(*noun, axis as nat) is Some,
{
    slot_ref(noun, axis).is_some()
}

/// Returns `noun` with the subnoun at `axis` replaced by `replacement`.
pub fn tree_set(noun: Noun, axis: u64, replacement: Noun) -> (edited: Noun)
    requires
        slot(noun, axis as nat) is Some,
    ensures
        edit(noun, axis as nat, replacement) == Some(edited),
    decreases axis,
{
    if axis == 1 {
        replacement
    } else if axis % 2 == 0 {
        let sibling = tree_get(noun.duplicate(), axis + 1);
        tree_set(noun, axis / 2, Noun::cons(replacement, sibling))
    } else {
        let sibling = tree_get(noun.duplicate(), axis - 1);
        tree_set(noun, axis / 2, Noun::cons(sibling, replacement))
    }
}

/// Axis 1 is the whole noun, and there is nothing at axis 0.
pub proof fn lemma_slot_root(noun: Noun)
    ensures
        slot(noun, 1) == Some(noun),
        slot(noun, 0) is None,
{
}

/// Slots are structural at every depth: where the slot at axis `a` is a
/// cell, its head is at axis `2a` and its tail at axis `2a + 1`; where it
/// is an atom or missing, neither axis has a slot.
pub proof fn lemma_slot_children(noun: Noun, a: nat)
    requires
        a >= 1,
    ensures
        slot(noun, a) matches Some(Noun::Cell(h, t)) ==> {
            &&& slot(noun, 2 * a) == Some(*h)
            &&& slot(noun, 2 * a + 1) == Some(*t)
        },
        !(slot(noun, a) matches Some(Noun::Cell(_, _))) ==> {
            &&& slot(noun, 2 * a) is None
            &&& slot(noun, 2 * a + 1) is None
        },
{
    assert((2 * a) / 2 == a && (2 * a) % 2 == 0);
    assert((2 * a + 1) / 2 == a && (2 * a + 1) % 2 == 1);
}

/// Where the slot at axis `a` exists, editing at `a` succeeds.
pub proof fn lemma_edit_defined(noun: Noun, a: nat, replacement: Noun)
    requires
        slot(noun, a) is Some,
    ensures
        edit(noun, a, replacement) is Some,
    decreases a,
{
    if a > 1 {
        if a % 2 == 0 {
            lemma_edit_defined(noun, a / 2, Noun::pair(replacement, slot(noun, a + 1).unwrap()));
        } else {
            lemma_edit_defined(noun, a / 2, Noun::pair(slot(noun, (a - 1) as nat).unwrap(), replacement));
        }
    }
}

/// Reading back: after putting `replacement` at axis `a`, the slot at `a`
/// holds `replacement`.
pub proof fn lemma_slot_after_edit(noun: Noun, a: nat, replacement: Noun)
    requires
        slot(noun, a) is Some,
    ensures
        edit(noun, a, replacement) is Some,
        slot(edit(noun, a, replacement).unwrap(), a) == Some(replacement),
    decreases a,
{
    lemma_edit_defined(noun, a, replacement);
    if a > 1 {
        if a % 2 == 0 {
            let c = Noun::pair(replacement, slot(noun, a + 1).unwrap());
            lemma_slot_after_edit(noun, a / 2, c);
        } else {
            let c = Noun::pair(slot(noun, (a - 1) as nat).unwrap(), replacement);
            lemma_slot_after_edit(noun, a / 2, c);
        }
    }
}

/// Two nouns that agree at axis `q` agree at every axis below `q`.
proof fn lemma_agree_below(x: Noun, y: Noun, q: nat, b: nat)
    requires
        slot(x, q) == slot(y, q),
        under(b, q),
    ensures
        slot(x, b) == slot(y, b),
    decreases b,
{
    if b != q {
        lemma_agree_below(x, y, q, b / 2);
    }
}

/// An axis strictly below `p` lies below one of the two children of `p`.
proof fn lemma_strictly_under(b: nat, p: nat)
    requires
        under(b, p),
        b != p,
    ensures
        under(b, 2 * p) || under(b, 2 * p + 1),
    decreases b,
{
    if b / 2 != p {
        lemma_strictly_under(b / 2, p);
    }
}

/// Every axis from 1 on lies below the root.
proof fn lemma_under_root(b: nat)
    requires
        b >= 1,
    ensures
        under(b, 1),
    decreases b,
{
    if b > 1 {
        lemma_under_root(b / 2);
    }
}

/// A parent's subtree holds the subtree of each child.
proof fn lemma_under_parent(b: nat, a: nat)
    requires
        under(a / 2, b),
        a > 1,
    ensures
        under(a, b),
{
}

/// Putting a noun at axis `a` leaves every axis disjoint from `a` as it was.
pub proof fn lemma_edit_keeps_disjoint(noun: Noun, a: nat, replacement: Noun, b: nat)
    requires
        slot(noun, a) is Some,
        disjoint(a, b),
    ensures
        edit(noun, a, replacement) is Some,
        slot(edit(noun, a, replacement).unwrap(), b) == slot(noun, b),
    decreases a,
{
    lemma_edit_defined(noun, a, replacement);
    if b >= 1 {
        lemma_under_root(b);
    }
    if a > 1 {
        let p = a / 2;
        let c = if a % 2 == 0 {
            Noun::pair(replacement, slot(noun, a + 1).unwrap())
        } else {
            Noun::pair(slot(noun, (a - 1) as nat).unwrap(), replacement)
        };
        let sib: nat = if a % 2 == 0 { a + 1 } else { (a - 1) as nat };
        assert(edit(noun, a, replacement) == edit(noun, p, c));
        lemma_edit_defined(noun, p, c);
        let e = edit(noun, p, c).unwrap();
        if disjoint(p, b) {
            lemma_edit_keeps_disjoint(noun, p, c, b);
        } else {
            if under(p, b) {
                lemma_under_parent(b, a);
                assert(false);
            }
            assert(under(b, p));
            if b == p {
                lemma_under_parent(b, a);
                assert(false);
            }
            lemma_strictly_under(b, p);
            assert(under(b, sib));
            lemma_slot_after_edit(noun, p, c);
            assert(slot(e, sib) == slot(noun, sib));
            lemma_agree_below(e, noun, sib, b);
        }
    }
}

/// An axis in the subtree of `a` is no smaller than `a`.
proof fn lemma_under_ge(b: nat, a: nat)
    requires
        under(b, a),
    ensures
        b >= a,
    decreases b,
{
    if b != a {
        lemma_under_ge(b / 2, a);
    }
}

/// Of two writes at the same axis, the last one wins.
pub proof fn lemma_edit_twice(noun: Noun, a: nat, first: Noun, second: Noun)
    requires
        slot(noun, a) is Some,
    ensures
        edit(noun, a, first) is Some,
        slot(edit(noun, a, first).unwrap(), a) is Some,
        edit(edit(noun, a, first).unwrap(), a, second) == edit(noun, a, second),
    decreases a,
{
    lemma_slot_after_edit(noun, a, first);
    if a > 1 {
        let sib: nat = if a % 2 == 0 { a + 1 } else { (a - 1) as nat };
        if under(a, sib) {
            lemma_under_ge(a, sib);
            assert(a / 2 < sib);
            assert(under(a / 2, sib));
            lemma_under_ge(a / 2, sib);
        }
        if under(sib, a) {
            lemma_under_ge(sib, a);
            assert(sib / 2 < a);
            assert(under(sib / 2, a));
            lemma_under_ge(sib / 2, a);
        }
        lemma_edit_keeps_disjoint(noun, a, first, sib);
        let s = slot(noun, sib).unwrap();
        if a % 2 == 0 {
            lemma_edit_twice(noun, a / 2, Noun::pair(first, s), Noun::pair(second, s));
        } else {
            lemma_edit_twice(noun, a / 2, Noun::pair(s, first), Noun::pair(s, second));
        }
    }
}

/// Putting back what a slot already holds changes nothing.
pub proof fn lemma_edit_with_own_slot(noun: Noun, a: nat)
    requires
        slot(noun, a) is Some,
    ensures
        edit(noun, a, slot(noun, a).unwrap()) == Some(noun),
    decreases a,
{
    if a > 1 {
        let p = a / 2;
        assert(slot(noun, p) is Some);
        if a % 2 == 0 {
            assert(Noun::pair(slot(noun, a).unwrap(), slot(noun, a + 1).unwrap()) == slot(noun, p).unwrap());
        } else {
            assert(Noun::pair(slot(noun, (a - 1) as nat).unwrap(), slot(noun, a).unwrap()) == slot(noun, p).unwrap());
        }
        lemma_edit_with_own_slot(noun, p);
    }
}

} // verus!
