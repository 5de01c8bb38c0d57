use nock::noun::Noun;
use nock::text::{parser, parser_checked, pretty_print};
use std::rc::Rc;

#[test]
fn parse_single_atom() {
    let (noun, _) = parser(b"42 ");
    assert_eq!(noun, Noun::Atom(42));
}

#[test]
fn parse_multi_digit_atom() {
    let (noun, _) = parser(b"123 ");
    assert_eq!(noun, Noun::Atom(123));
}

#[test]
fn parse_simple_cell() {
    let (noun, _) = parser(b"[1 2]");
    assert_eq!(noun, Noun::Cell(Rc::new(Noun::Atom(1)), Rc::new(Noun::Atom(2))));
}

#[test]
fn parse_nested_cell_right() {
    let (noun, _) = parser(b"[1 [2 3]]");
    assert_eq!(noun, Noun::Cell(
        Rc::new(Noun::Atom(1)),
        Rc::new(Noun::Cell(Rc::new(Noun::Atom(2)), Rc::new(Noun::Atom(3))))
    ));
}

#[test]
fn parse_nested_cell_left() {
    let (noun, _) = parser(b"[[1 2] 3]");
    assert_eq!(noun, Noun::Cell(
        Rc::new(Noun::Cell(Rc::new(Noun::Atom(1)), Rc::new(Noun::Atom(2)))),
        Rc::new(Noun::Atom(3))
    ));
}

#[test]
fn parse_deeply_nested() {
    let (noun, _) = parser(b"[[1 2] [3 4]]");
    assert_eq!(noun, Noun::Cell(
        Rc::new(Noun::Cell(Rc::new(Noun::Atom(1)), Rc::new(Noun::Atom(2)))),
        Rc::new(Noun::Cell(Rc::new(Noun::Atom(3)), Rc::new(Noun::Atom(4))))
    ));
}

#[test]
fn parse_multi_digit_in_cell() {
    let (noun, _) = parser(b"[10 20]");
    assert_eq!(noun, Noun::Cell(Rc::new(Noun::Atom(10)), Rc::new(Noun::Atom(20))));
}

fn atom(x: u64) -> Noun {
    Noun::Atom(x)
}

fn cell(a: Noun, b: Noun) -> Noun {
    Noun::Cell(Rc::new(a), Rc::new(b))
}

#[test]
fn parse_counts() {
    assert_eq!(parser(b"42 ").1, 2);
    assert_eq!(parser(b"42").1, 1);
    assert_eq!(parser(b"7").1, 1);
    assert_eq!(parser(b"[1 2]").1, 3);
    assert_eq!(parser(b"[1 [2 3]]").1, 5);
}

#[test]
fn parse_skips_leading_space_and_bracket() {
    assert_eq!(parser(b"  ]5 ").0, atom(5));
}

#[test]
fn parse_largest_atom() {
    assert_eq!(parser(b"18446744073709551615 ").0, atom(u64::MAX));
}

#[test]
fn parse_rejects() {
    assert!(parser_checked(b"").is_none());
    assert!(parser_checked(b"x").is_none());
    assert!(parser_checked(b"18446744073709551616 ").is_none());
    assert!(parser_checked(b"[1").is_none());
    assert!(parser_checked(b"[").is_none());
}

#[test]
fn parse_deep_left_heads_lose_structure() {
    // The reader's count falls short of the text for a head nested two
    // levels deep, so the tail is read from inside the head.
    let (noun, _) = parser(b"[[[1 2] 3] 4]");
    assert_eq!(noun, cell(cell(cell(atom(1), atom(2)), atom(3)), atom(3)));
}

#[test]
fn pretty_print_text() {
    assert_eq!(pretty_print(atom(0)), "0");
    assert_eq!(pretty_print(atom(42)), "42");
    assert_eq!(pretty_print(atom(u64::MAX)), "18446744073709551615");
    assert_eq!(pretty_print(cell(atom(1), cell(atom(2), atom(30)))), "[1 [2 30]]");
    assert_eq!(pretty_print(cell(cell(atom(1), atom(2)), atom(3))), "[[1 2] 3]");
}

#[test]
fn pretty_print_then_parse() {
    let nouns = vec![
        atom(7),
        cell(atom(1), atom(2)),
        cell(cell(atom(1), atom(2)), cell(atom(3), atom(4))),
        cell(atom(10), cell(cell(atom(20), atom(30)), atom(40))),
    ];
    for n in nouns {
        let text = pretty_print(n.clone());
        assert_eq!(parser(text.as_bytes()).0, n);
    }
}

#[test]
fn parse_tail_read_from_inside_deep_head() {
    // The head [1 [2 3]] is read back, then the tail is read from inside its
    // text, before its closing brackets.
    assert_eq!(parser(b"[[1 [2 3]] 4]").0, cell(cell(atom(1), cell(atom(2), atom(3))), atom(3)));
    // The tail can be the last digits of an atom of the head.
    assert_eq!(parser(b"[[12 [34 56]] 7]").0, cell(cell(atom(12), cell(atom(34), atom(56))), atom(6)));
    // A noun whose tail happens to equal what is read there comes back.
    assert_eq!(parser(b"[[[1 2] 3] 3]").0, cell(cell(cell(atom(1), atom(2)), atom(3)), atom(3)));
}
