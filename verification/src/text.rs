use vstd::prelude::*;

use crate::noun::Noun;

verus! {

/// `b` is an ASCII decimal digit.
pub open spec fn is_digit(b: u8) -> bool {
    48 <= b <= 57
}

/// The number of digits at the start of `s`.
pub open spec fn digit_run(s: Seq<u8>) -> nat
    decreases s.len(),
{
    if s.len() > 0 && is_digit(s[0]) {
        1 + digit_run(s.drop_first())
    } else {
        0
    }
}

/// The number written in decimal by the digits `ds`.
pub open spec fn decimal(ds: Seq<u8>) -> nat
    decreases ds.len(),
{
    if ds.len() == 0 {
        0
    } else {
        decimal(ds.drop_last()) * 10 + (ds.last() - 48) as nat
    }
}

/// Reads the noun written at the start of `line`, with the count of bytes
/// that the reader reports for it.
///
/// - A run of digits is an atom.  Its count is the number of digits where a
///   byte other than a digit follows them, and 1 where they run to the end.
/// - `[` is followed by the head; the reader then skips the byte after the
///   head's count and reads the tail from there; the count of the cell is the
///   sum of both counts plus 1.
/// - `]` and a space are skipped and add nothing to the count.
/// - Anything else, an empty line, a number above `u64::MAX` or a count that
///   runs past the end gives no noun.
pub open spec fn read_text(line: Seq<u8>) -> Option<(Noun, nat)>
    decreases line.len(),
{
    if line.len() == 0 {
        None
    } else {
        let c = line[0];
        let rest = line.drop_first();
        if is_digit(c) {
            let digits = 1 + digit_run(rest);
            let value = decimal(line.take(digits as int));
            if value <= u64::MAX {
                Some(
                    (
                        Noun::Atom(value as u64),
                        if digit_run(rest) < rest.len() {
                            digits
                        } else {
                            1
                        },
                    ),
                )
            } else {
                None
            }
        } else if c == 91 {
            match read_text(rest) {
                Some((head, pos)) => if pos + 1 <= rest.len() {
                    match read_text(rest.skip((pos + 1) as int)) {
                        Some((tail, pos2)) => Some((Noun::pair(head, tail), pos + pos2 + 1)),
                        None => None,
                    }
                } else {
                    None
                },
                None => None,
            }
        } else if c == 93 || c == 32 {
            read_text(rest)
        } else {
            None
        }
    }
}

/// The decimal digits of `x`, as ASCII bytes, most significant first.
pub open spec fn decimal_digits(x: nat) -> Seq<u8>
    decreases x,
{
    if x < 10 {
        seq![(48 + x) as u8]
    } else {
        decimal_digits(x / 10).push((48 + x % 10) as u8)
    }
}

/// The text of a noun as ASCII bytes: an atom in decimal, a cell as `[`, its
/// head, a space, its tail and `]`.
pub open spec fn pretty_bytes(noun: Noun) -> Seq<u8>
    decreases noun,
{
    match noun {
        Noun::Atom(x) => decimal_digits(x as nat),
        Noun::Cell(h, t) => seq![91u8] + pretty_bytes(*h) + seq![32u8] + pretty_bytes(*t) + seq![93u8],
    }
}

/// The characters of the ASCII bytes `bytes`.
pub open spec fn ascii_chars(bytes: Seq<u8>) -> Seq<char> {
    bytes.map_values(|b: u8| b as char)
}

/// The text of a noun.
pub open spec fn pretty_text(noun: Noun) -> Seq<char> {
    ascii_chars(pretty_bytes(noun))
}

/// `String::push` (std): appends the character `c` to the end of `s`.
#[verifier::external_body]
fn push_char(s: &mut String, c: char)
    ensures
        final(s)@ == old(s)@.push(c),
{
    s.push(c);
}

/// A run of digits is no longer than the sequence it starts.
proof fn lemma_digit_run_len(s: Seq<u8>)
    ensures
        digit_run(s) <= s.len(),
    decreases s.len(),
{
    if s.len() > 0 && is_digit(s[0]) {
        lemma_digit_run_len(s.drop_first());
    }
}

/// Where the first `m` bytes are digits and byte `m` (if any) is not, the
/// run of digits has length `m`; where only the first `m` bytes are known
/// to be digits, it has at least that length.
proof fn lemma_digit_run_exact(s: Seq<u8>, m: nat)
    requires
        m <= s.len(),
        forall|k: int| 0 <= k < m ==> is_digit(#[trigger] s[k]),
    ensures
        digit_run(s) >= m,
        (m == s.len() || !is_digit(s[m as int])) ==> digit_run(s) == m,
    decreases m,
{
    if m > 0 {
        let t = s.drop_first();
        assert forall|k: int| 0 <= k < m - 1 implies is_digit(#[trigger] t[k]) by {
            assert(t[k] == s[k + 1]);
        }
        lemma_digit_run_exact(t, (m - 1) as nat);
    }
}

/// A longer prefix of digits spells a number at least as large.
proof fn lemma_decimal_monotone(s: Seq<u8>, a: nat, b: nat)
    requires
        a <= b <= s.len(),
    ensures
        decimal(s.take(a as int)) <= decimal(s.take(b as int)),
    decreases b,
{
    if a < b {
        lemma_decimal_monotone(s, a, (b - 1) as nat);
        assert(s.take(b as int).drop_last() =~= s.take(b - 1));
    }
}

/// The count that the reader reports is at least 1 and at most the length of
/// the line.
pub proof fn lemma_read_bound(line: Seq<u8>)
    ensures
        read_text(line) matches Some((_, used)) ==> 1 <= used <= line.len(),
    decreases line.len(),
{
    if line.len() > 0 {
        let rest = line.drop_first();
        lemma_digit_run_len(rest);
        lemma_read_bound(rest);
        if line[0] == 91 {
            if let Some((_, pos)) = read_text(rest) {
                if pos + 1 <= rest.len() {
                    lemma_read_bound(rest.skip((pos + 1) as int));
                }
            }
        }
    }
}

/// The result of reading `line` agrees with `read_text`.
pub open spec fn reads_as(r: Option<(Noun, usize)>, line: Seq<u8>) -> bool {
    match r {
        Some((noun, used)) => read_text(line) == Some((noun, used as nat)),
        None => read_text(line) is None,
    }
}

/// Reads the atom whose digits start `line`.
fn read_atom(line: &[u8]) -> (r: Option<(Noun, usize)>)
    requires
        line@.len() > 0,
        is_digit(line@[0]),
    ensures
        reads_as(r, line@),
{
    let first: u8 = line[0];
    let mut value: u64 = (first - 48) as u64;
    let mut j: usize = 1;
    assert(line@.take(1).drop_last() =~= Seq::<u8>::empty());
    assert(line@.take(1).last() == first);
    assert(decimal(Seq::<u8>::empty()) == 0);
    assert(decimal(line@.take(1)) == (first - 48) as nat);
    while j < line.len() && 48 <= line[j] && line[j] <= 57
        invariant
            1 <= j <= line@.len(),
            line@.len() == line.len(),
            is_digit(line@[0]),
            forall|k: int| 1 <= k < j ==> is_digit(#[trigger] line@[k]),
            value as nat == decimal(line@.take(j as int)),
        decreases line.len() - j,
    {
        let b: u8 = line[j];
        let d: u64 = (b - 48) as u64;
        assert(line@.take(j + 1).drop_last() =~= line@.take(j as int));
        if value > (u64::MAX - d) / 10 {
            proof {
                let rest = line@.drop_first();
                assert forall|k: int| 0 <= k < j implies is_digit(#[trigger] rest[k]) by {
                    assert(rest[k] == line@[k + 1]);
                }
                lemma_digit_run_exact(rest, j as nat);
                lemma_digit_run_len(rest);
                lemma_decimal_monotone(line@, (j + 1) as nat, 1 + digit_run(rest));
            }
            return None;
        }
        value = value * 10 + d;
        j = j + 1;
    }
    proof {
        let rest = line@.drop_first();
        assert forall|k: int| 0 <= k < j - 1 implies is_digit(#[trigger] rest[k]) by {
            assert(rest[k] == line@[k + 1]);
        }
        if j < line@.len() {
            assert(rest[j - 1] == line@[j as int]);
        }
        lemma_digit_run_exact(rest, (j - 1) as nat);
    }
    let used: usize = if j < line.len() {
        j
    } else {
        1
    };
    Some((Noun::Atom(value), used))
}

/// Reads the noun written at the start of `line`, with the count of bytes
/// that the reader reports for it; `None` where `line` does not start with
/// a noun that the reader accepts.
pub fn parser_checked(line: &[u8]) -> (r: Option<(Noun, usize)>)
    ensures
        reads_as(r, line@),
    decreases line@.len(),
{
    if line.len() == 0 {
        return None;
    }
    let c: u8 = line[0];
    if 48 <= c && c <= 57 {
        read_atom(line)
    } else if c == 91u8 {
        let rest = &line[1..line.len()];
        assert(rest@ =~= line@.drop_first());
        proof {
            lemma_read_bound(rest@);
        }
        match parser_checked(rest) {
            Some((head, pos)) => {
                if pos >= rest.len() {
                    return None;
                }
                let more = &rest[pos + 1..rest.len()];
                assert(more@ =~= rest@.skip(pos + 1));
                proof {
                    lemma_read_bound(more@);
                }
                match parser_checked(more) {
                    Some((tail, pos2)) => Some((Noun::cons(head, tail), pos + pos2 + 1)),
                    None => None,
                }
            },
            None => None,
        }
    } else if c == 93u8 || c == 32u8 {
        let rest = &line[1..line.len()];
        assert(rest@ =~= line@.drop_first());
        parser_checked(rest)
    } else {
        None
    }
}

/// Reads the noun written at the start of `line`, with the count of bytes
/// that the reader reports for it.
pub fn parser(line: &[u8]) -> (r: (Noun, usize))
    requires
        read_text(line@) is Some,
    ensures
        read_text(line@) == Some((r.0, r.1 as nat)),
{
    match parser_checked(line) {
        Some(found) => found,
        None => (Noun::Atom(0), 0),
    }
}

/// Appends the decimal digits of `x`.
fn push_decimal(x: u64, out: &mut String)
    ensures
        final(out)@ == old(out)@ + ascii_chars(decimal_digits(x as nat)),
    decreases x,
{
    if x >= 10 {
        push_decimal(x / 10, out);
    }
    let d: u8 = (x % 10) as u8;
    push_char(out, (48u8 + d) as char);
    proof {
        if x >= 10 {
            assert(ascii_chars(decimal_digits(x as nat)) =~= ascii_chars(decimal_digits((x / 10) as nat)).push(((48 + x % 10) as u8) as char));
        } else {
            assert(ascii_chars(decimal_digits(x as nat)) =~= seq![((48 + x) as u8) as char]);
        }
    }
    assert(out@ =~= old(out)@ + ascii_chars(decimal_digits(x as nat)));
}

/// Appends the text of `noun`.
fn pretty_into(noun: &Noun, out: &mut String)
    ensures
        final(out)@ == old(out)@ + pretty_text(*noun),
    decreases noun,
{
    match noun {
        Noun::Atom(x) => push_decimal(*x, out),
        Noun::Cell(h, t) => {
            push_char(out, '[');
            pretty_into(&**h, out);
            push_char(out, ' ');
            pretty_into(&**t, out);
            push_char(out, ']');
            proof {
                let hb = pretty_bytes(noun.head());
                let tb = pretty_bytes(noun.tail());
                assert(ascii_chars(pretty_bytes(*noun)) =~= seq!['['] + ascii_chars(hb) + seq![' ']
                    + ascii_chars(tb) + seq![']']);
            }
            assert(out@ =~= old(out)@ + pretty_text(*noun));
        },
    }
}

/// The text of `noun`: an atom in decimal, a cell as `[head tail]`.
pub fn pretty_print(noun: Noun) -> (text: String)
    ensures
        text@ == pretty_text(noun),
{
    let mut text = String::new();
    pretty_into(&noun, &mut text);
    assert(text@ =~= pretty_text(noun));
    text
}

/// Every cell in `noun` has as its head an atom or a cell of two atoms.
pub open spec fn shallow_heads(noun: Noun) -> bool
    decreases noun,
{
    match noun {
        Noun::Atom(_) => true,
        Noun::Cell(h, t) => (match *h {
            Noun::Atom(_) => true,
            Noun::Cell(a, b) => *a is Atom && *b is Atom,
        }) && shallow_heads(*t),
    }
}

/// The count that the reader reports for the text of `noun` when a byte
/// other than a digit follows it.
pub open spec fn text_count(noun: Noun) -> nat
    decreases noun,
{
    match noun {
        Noun::Atom(x) => decimal_digits(x as nat).len(),
        Noun::Cell(h, t) => text_count(*h) + text_count(*t) + 1,
    }
}

/// The decimal digits of a number are digits, and spell the number.
pub proof fn lemma_decimal_digits(x: nat)
    ensures
        decimal_digits(x).len() >= 1,
        forall|k: int| 0 <= k < decimal_digits(x).len() ==> is_digit(#[trigger] decimal_digits(x)[k]),
        decimal(decimal_digits(x)) == x,
    decreases x,
{
    let ds = decimal_digits(x);
    if x < 10 {
        assert(ds.drop_last() =~= Seq::<u8>::empty());
        assert(decimal(Seq::<u8>::empty()) == 0);
    } else {
        lemma_decimal_digits(x / 10);
        assert(ds.drop_last() =~= decimal_digits(x / 10));
    }
}

/// Reading back the text of an atom followed by a byte other than a digit.
proof fn lemma_read_atom_text(x: u64, tail: Seq<u8>)
    requires
        tail.len() == 0 || !is_digit(tail[0]),
    ensures
        read_text(decimal_digits(x as nat) + tail) == Some(
            (
                Noun::Atom(x),
                if tail.len() > 0 {
                    decimal_digits(x as nat).len()
                } else {
                    1
                },
            ),
        ),
{
    let ds = decimal_digits(x as nat);
    lemma_decimal_digits(x as nat);
    let line = ds + tail;
    let rest = line.drop_first();
    let m = (ds.len() - 1) as nat;
    assert forall|k: int| 0 <= k < m implies is_digit(#[trigger] rest[k]) by {
        assert(rest[k] == ds[k + 1]);
    }
    if tail.len() > 0 {
        assert(rest[m as int] == tail[0]);
    }
    lemma_digit_run_exact(rest, m);
    assert(line.take(ds.len() as int) =~= ds);
}

/// One cell step of reading back a text: where the head reads back followed
/// by the rest of the cell's text, and the tail reads back followed by `]`,
/// the cell reads back.
proof fn lemma_read_pretty_cell(noun: Noun, tail: Seq<u8>)
    requires
        noun is Cell,
        shallow_heads(noun),
        read_text(pretty_bytes(noun.head()) + (seq![32u8] + pretty_bytes(noun.tail()) + seq![93u8] + tail))
            == Some((noun.head(), text_count(noun.head()))),
        read_text(pretty_bytes(noun.tail()) + (seq![93u8] + tail)) == Some(
            (noun.tail(), text_count(noun.tail())),
        ),
    ensures
        read_text(pretty_bytes(noun) + tail) == Some((noun, text_count(noun))),
{
    let h = noun.head();
    let t = noun.tail();
    let ph = pretty_bytes(h);
    let pt = pretty_bytes(t);
    let line = pretty_bytes(noun) + tail;
    let rest = line.drop_first();
    let after_head = seq![32u8] + pt + seq![93u8] + tail;
    assert(rest =~= ph + after_head);
    assert(line[0] == 91);
    assert(noun == Noun::pair(h, t));
    let pos = text_count(h);
    let next = pt + (seq![93u8] + tail);
    if h is Atom {
        assert(text_count(h) == ph.len());
        assert(rest.skip((pos + 1) as int) =~= next);
    } else {
        let pa = pretty_bytes(h.head());
        let pb = pretty_bytes(h.tail());
        assert(text_count(h.head()) == pa.len());
        assert(text_count(h.tail()) == pb.len());
        assert(ph =~= seq![91u8] + pa + seq![32u8] + pb + seq![93u8]);
        let skipped = rest.skip((pos + 1) as int);
        assert(skipped =~= seq![93u8] + (seq![32u8] + next));
        assert(skipped.drop_first() =~= seq![32u8] + next);
        assert(skipped.drop_first().drop_first() =~= next);
        assert(skipped[0] == 93);
        assert(read_text(skipped) == read_text(skipped.drop_first()));
        assert(skipped.drop_first()[0] == 32);
        assert(read_text(skipped.drop_first()) == read_text(next));
    }
}

/// Reading the text of a noun whose cells have shallow heads gives the noun
/// back, where the text of an atom is followed by a byte other than a digit.
proof fn lemma_read_pretty_general(noun: Noun, tail: Seq<u8>)
    requires
        shallow_heads(noun),
        noun is Cell || (tail.len() > 0 && !is_digit(tail[0])),
    ensures
        read_text(pretty_bytes(noun) + tail) == Some((noun, text_count(noun))),
    decreases noun,
{
    match noun {
        Noun::Atom(x) => {
            lemma_read_atom_text(x, tail);
            assert(pretty_bytes(noun) == decimal_digits(x as nat));
        },
        Noun::Cell(_, _) => {
            let h = noun.head();
            let t = noun.tail();
            if h is Cell {
                assert(shallow_heads(h.tail()));
            }
            assert(shallow_heads(h));
            lemma_read_pretty_general(h, seq![32u8] + pretty_bytes(t) + seq![93u8] + tail);
            lemma_read_pretty_general(t, seq![93u8] + tail);
            lemma_read_pretty_cell(noun, tail);
        },
    }
}

/// Reading the text of a noun gives the noun back, for every noun whose
/// cells have as head an atom or a cell of two atoms.
pub proof fn lemma_read_pretty(noun: Noun)
    requires
        shallow_heads(noun),
    ensures
        read_text(pretty_bytes(noun)) matches Some((read, _)) && read == noun,
{
    match noun {
        Noun::Atom(x) => {
            lemma_read_atom_text(x, Seq::empty());
            assert(decimal_digits(x as nat) + Seq::<u8>::empty() =~= pretty_bytes(noun));
        },
        Noun::Cell(_, _) => {
            lemma_read_pretty_general(noun, Seq::empty());
            assert(pretty_bytes(noun) + Seq::<u8>::empty() =~= pretty_bytes(noun));
        },
    }
}


/// The number of cells in `noun`.
pub open spec fn cell_count(noun: Noun) -> nat
    decreases noun,
{
    match noun {
        Noun::Atom(_) => 0,
        Noun::Cell(h, t) => cell_count(*h) + cell_count(*t) + 1,
    }
}

/// The number of `]` bytes that end the text of `noun`.
pub open spec fn closing_run(noun: Noun) -> nat
    decreases noun,
{
    match noun {
        Noun::Atom(_) => 0,
        Noun::Cell(_, t) => closing_run(*t) + 1,
    }
}

/// The text of a noun is longer than the reader's count for it by two bytes
/// per cell, and ends in at most one `]` per cell.
pub proof fn lemma_text_length(noun: Noun)
    ensures
        pretty_bytes(noun).len() == text_count(noun) + 2 * cell_count(noun),
        closing_run(noun) <= cell_count(noun),
    decreases noun,
{
    if noun is Cell {
        lemma_text_length(noun.head());
        lemma_text_length(noun.tail());
    } else {
        lemma_decimal_digits(noun->Atom_0 as nat);
    }
}

/// What the reader makes of the text of a cell whose head is a cell other
/// than a pair of two atoms (and whose cells have shallow heads): it reads
/// the head back, then starts on the tail at byte `text_count(head) + 1` of
/// the head's own text, which lies before the run of `]` that ends that
/// text; the tail it returns is whatever it reads from there on.
pub proof fn lemma_read_deep_head(noun: Noun, tail: Seq<u8>)
    requires
        noun is Cell,
        noun.head() is Cell,
        shallow_heads(noun.head()),
        !(noun.head().head() is Atom && noun.head().tail() is Atom),
    ensures
        text_count(noun.head()) + 1 + closing_run(noun.head()) < pretty_bytes(noun.head()).len(),
        read_text(pretty_bytes(noun) + tail) == match read_text(
            pretty_bytes(noun.head()).skip((text_count(noun.head()) + 1) as int) + (seq![32u8]
                + pretty_bytes(noun.tail()) + seq![93u8] + tail),
        ) {
            Some((t, used)) => Some((Noun::pair(noun.head(), t), text_count(noun.head()) + used + 1)),
            None => None,
        },
{
    let a = noun.head();
    let b = noun.tail();
    let pa = pretty_bytes(a);
    let after = seq![32u8] + pretty_bytes(b) + seq![93u8] + tail;
    lemma_text_length(a);
    lemma_text_length(a.head());
    lemma_text_length(a.tail());
    if a.tail() is Cell {
        lemma_text_length(a.tail().tail());
    }
    lemma_read_pretty_general(a, after);
    let line = pretty_bytes(noun) + tail;
    let rest = line.drop_first();
    assert(rest =~= pa + after);
    assert(line[0] == 91);
    let at = (text_count(a) + 1) as int;
    assert(rest.skip(at) =~= pa.skip(at) + after);
}

} // verus!
