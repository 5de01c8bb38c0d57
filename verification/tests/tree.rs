use nock::noun::{left_get, number_get, right_get, Noun};
use nock::tree::{tree_get, tree_set};
use std::rc::Rc;

fn atom(x: u64) -> Noun {
    Noun::Atom(x)
}

fn cell(a: Noun, b: Noun) -> Noun {
    Noun::Cell(Rc::new(a), Rc::new(b))
}

#[test]
fn getters() {
    let n = cell(atom(1), cell(atom(2), atom(3)));
    assert_eq!(left_get(n.clone()), atom(1));
    assert_eq!(right_get(n.clone()), cell(atom(2), atom(3)));
    assert_eq!(number_get(atom(9)), 9);
}

#[test]
fn tree_get_axes() {
    let n = cell(atom(10), cell(atom(20), atom(30)));
    assert_eq!(tree_get(n.clone(), 1), n);
    assert_eq!(tree_get(n.clone(), 2), atom(10));
    assert_eq!(tree_get(n.clone(), 3), cell(atom(20), atom(30)));
    assert_eq!(tree_get(n.clone(), 6), atom(20));
    assert_eq!(tree_get(n.clone(), 7), atom(30));
}

#[test]
fn tree_set_axes() {
    let n = cell(atom(10), cell(atom(20), atom(30)));
    assert_eq!(tree_set(n.clone(), 1, atom(5)), atom(5));
    assert_eq!(tree_set(n.clone(), 2, atom(5)), cell(atom(5), cell(atom(20), atom(30))));
    assert_eq!(tree_set(n.clone(), 6, atom(5)), cell(atom(10), cell(atom(5), atom(30))));
    assert_eq!(tree_set(n.clone(), 7, atom(5)), cell(atom(10), cell(atom(20), atom(5))));
}

#[test]
fn tree_set_then_get() {
    let n = cell(cell(atom(1), atom(2)), cell(atom(3), atom(4)));
    let r = cell(atom(8), atom(9));
    let e = tree_set(n.clone(), 5, r.clone());
    assert_eq!(tree_get(e.clone(), 5), r);
    assert_eq!(tree_get(e.clone(), 4), atom(1));
    assert_eq!(tree_get(e.clone(), 3), cell(atom(3), atom(4)));
    assert_eq!(tree_set(n.clone(), 3, tree_get(n.clone(), 3)), n);
}

#[test]
fn tree_set_twice_last_wins() {
    let n = cell(cell(atom(1), atom(2)), cell(atom(3), atom(4)));
    let once = tree_set(n.clone(), 5, atom(8));
    assert_eq!(tree_set(once, 5, atom(9)), tree_set(n.clone(), 5, atom(9)));
}
