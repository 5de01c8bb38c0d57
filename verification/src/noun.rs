use std::rc::Rc;
use vstd::prelude::*;

verus! {

/// A Nock noun: either an atom (an unsigned number) or a cell (an ordered
/// pair of nouns).
#[derive(Debug)]
pub enum Noun {
    Atom(u64),
    Cell(Rc<Noun>, Rc<Noun>),
}

impl Noun {
    /// The head (left half) of a cell.
    pub open spec fn head(self) -> Noun
        recommends
            self is Cell,
    {
        match self {
            Noun::Cell(x, _) => *x,
            Noun::Atom(_) => self,
        }
    }

    /// The tail (right half) of a cell.
    pub open spec fn tail(self) -> Noun
        recommends
            self is Cell,
    {
        match self {
            Noun::Cell(_, y) => *y,
            Noun::Atom(_) => self,
        }
    }

    /// The cell whose head is `a` and whose tail is `b`.
    pub open spec fn pair(a: Noun, b: Noun) -> Noun {
        Noun::Cell(Rc::new(a), Rc::new(b))
    }

    /// Builds the cell `[a b]`.
    pub fn cons(a: Noun, b: Noun) -> (c: Noun)
        ensures
            c == Noun::pair(a, b),
    {
        Noun::Cell(Rc::new(a), Rc::new(b))
    }

    /// A copy of this noun that shares its children with it.
    pub fn duplicate(&self) -> (r: Noun)
        ensures
            r == *self,
    {
        match self {
            Noun::Atom(x) => Noun::Atom(*x),
            Noun::Cell(a, b) => Noun::Cell(a.clone(), b.clone()),
        }
    }
}

impl Clone for Noun {
    fn clone(&self) -> (r: Noun)
        ensures
            r == *self,
    {
        self.duplicate()
    }
}

/// Structural equality of two nouns.
pub fn nouns_equal(a: &Noun, b: &Noun) -> (r: bool)
    ensures
        r == (*a == *b),
    decreases a,
{
    match (a, b) {
        (Noun::Atom(x), Noun::Atom(y)) => *x == *y,
        (Noun::Cell(a1, a2), Noun::Cell(b1, b2)) => {
            nouns_equal(&**a1, &**b1) && nouns_equal(&**a2, &**b2)
        },
        _ => false,
    }
}

impl PartialEq for Noun {
    fn eq(&self, other: &Noun) -> (r: bool) {
        nouns_equal(self, other)
    }
}

impl vstd::std_specs::cmp::PartialEqSpecImpl for Noun {
    open spec fn obeys_eq_spec() -> bool {
        true
    }

    open spec fn eq_spec(&self, other: &Noun) -> bool {
        *self == *other
    }
}

impl Eq for Noun {

}

/// Returns the head of a cell.
pub fn left_get(cell: Noun) -> (head: Noun)
    requires
        cell is Cell,
    ensures
        head == cell.head(),
{
    match cell {
        Noun::Cell(x, _y) => (*x).duplicate(),
        Noun::Atom(_) => Noun::Atom(0),
    }
}

/// Returns the tail of a cell.
pub fn right_get(cell: Noun) -> (tail: Noun)
    requires
        cell is Cell,
    ensures
        tail == cell.tail(),
{
    match cell {
        Noun::Cell(_x, y) => (*y).duplicate(),
        Noun::Atom(_) => Noun::Atom(0),
    }
}

/// Returns the number held by an atom.
pub fn number_get(cell: Noun) -> (n: u64)
    requires
        cell is Atom,
    ensures
        cell == Noun::Atom(n),
{
    match cell {
        Noun::Atom(x) => x,
        Noun::Cell(_, _) => 0,
    }
}

} // verus!
