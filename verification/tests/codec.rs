use nock::codec::{deserialize, deserialize_checked, serialize};
use nock::noun::Noun;
use std::rc::Rc;

fn atom(x: u64) -> Noun {
    Noun::Atom(x)
}

fn cell(a: Noun, b: Noun) -> Noun {
    Noun::Cell(Rc::new(a), Rc::new(b))
}

#[test]
fn serialize_bytes() {
    assert_eq!(serialize(atom(1)), vec![0, 1, 0, 0, 0, 0, 0, 0, 0]);
    assert_eq!(serialize(atom(0x0102030405060708)), vec![0, 8, 7, 6, 5, 4, 3, 2, 1]);
    assert_eq!(
        serialize(cell(atom(2), atom(3))),
        vec![1, 0, 2, 0, 0, 0, 0, 0, 0, 0, 0, 3, 0, 0, 0, 0, 0, 0, 0]
    );
}

#[test]
fn roundtrip() {
    let noun = cell(atom(10), cell(atom(20), atom(30)));
    assert_eq!(deserialize(&serialize(noun.clone())), noun);
    let big = cell(cell(atom(u64::MAX), atom(0)), atom(12345678901234));
    assert_eq!(deserialize(&serialize(big.clone())), big);
}

#[test]
fn trailing_bytes_ignored() {
    let mut bytes = serialize(cell(atom(1), atom(2)));
    let len = bytes.len();
    bytes.extend_from_slice(&[7, 7, 7]);
    assert_eq!(deserialize_checked(&bytes), Some((cell(atom(1), atom(2)), len)));
}

#[test]
fn deserialize_rejects() {
    assert_eq!(deserialize_checked(&[]), None);
    assert_eq!(deserialize_checked(&[2, 0, 0]), None);
    assert_eq!(deserialize_checked(&[0, 1, 2, 3]), None);
    assert_eq!(deserialize_checked(&[1, 0, 1, 0, 0, 0, 0, 0, 0, 0]), None);
}
