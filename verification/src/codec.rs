use vstd::prelude::*;

use crate::noun::Noun;

verus! {

/// `256` to the power `n`.
pub open spec fn pow256(n: nat) -> nat
    decreases n,
{
    if n == 0 {
        1
    } else {
        256 * pow256((n - 1) as nat)
    }
}

/// The `count` lowest bytes of `x`, least significant first.
pub open spec fn le_bytes(x: nat, count: nat) -> Seq<u8>
    decreases count,
{
    if count == 0 {
        Seq::empty()
    } else {
        seq![(x % 256) as u8] + le_bytes(x / 256, (count - 1) as nat)
    }
}

/// The number whose bytes, least significant first, are `bytes`.
pub open spec fn le_value(bytes: Seq<u8>) -> nat
    decreases bytes.len(),
{
    if bytes.len() == 0 {
        0
    } else {
        (bytes[0] as nat) + 256 * le_value(bytes.drop_first())
    }
}

/// The byte encoding of a noun: an atom is the byte 0 followed by its
/// number in 8 little-endian bytes; a cell is the byte 1 followed by the
/// encodings of its head and of its tail.
pub open spec fn encode(noun: Noun) -> Seq<u8>
    decreases noun,
{
    match noun {
        Noun::Atom(x) => seq![0u8] + le_bytes(x as nat, 8),
        Noun::Cell(h, t) => seq![1u8] + encode(*h) + encode(*t),
    }
}

/// Decodes the noun at the start of `bytes`, with the number of bytes it
/// takes; what follows it is ignored.  `None` where the bytes do not start
/// with an encoded noun.
pub open spec fn decode(bytes: Seq<u8>) -> Option<(Noun, nat)>
    decreases bytes.len(),
{
    if bytes.len() == 0 {
        None
    } else if bytes[0] == 0 {
        if bytes.len() >= 9 {
            Some((Noun::Atom(le_value(bytes.subrange(1, 9)) as u64), 9))
        } else {
            None
        }
    } else if bytes[0] == 1 {
        let rest = bytes.drop_first();
        match decode(rest) {
            Some((head, used)) => if used <= rest.len() {
                match decode(rest.skip(used as int)) {
                    Some((tail, used2)) => Some((Noun::pair(head, tail), used + used2 + 1)),
                    None => None,
                }
            } else {
                None
            },
            None => None,
        }
    } else {
        None
    }
}

proof fn lemma_pow256_monotone(a: nat, b: nat)
    requires
        a <= b,
    ensures
        pow256(a) <= pow256(b),
    decreases b,
{
    if a < b {
        lemma_pow256_monotone(a, (b - 1) as nat);
    }
}

proof fn lemma_pow256_eight()
    ensures
        pow256(8) == 0x1_0000_0000_0000_0000,
{
    reveal_with_fuel(pow256, 9);
}

/// A number below `256^count` is read back from its `count` bytes.
pub proof fn lemma_le_roundtrip(x: nat, count: nat)
    requires
        x < pow256(count),
    ensures
        le_value(le_bytes(x, count)) == x,
        le_bytes(x, count).len() == count,
    decreases count,
{
    if count > 0 {
        lemma_le_roundtrip(x / 256, (count - 1) as nat);
        let s = le_bytes(x, count);
        assert(s.drop_first() =~= le_bytes(x / 256, (count - 1) as nat));
    }
}

/// Bytes are rebuilt from the number they spell.
pub proof fn lemma_le_bytes_of_value(bytes: Seq<u8>)
    ensures
        le_value(bytes) < pow256(bytes.len()),
        le_bytes(le_value(bytes), bytes.len()) == bytes,
    decreases bytes.len(),
{
    if bytes.len() > 0 {
        let rest = bytes.drop_first();
        lemma_le_bytes_of_value(rest);
        let v = le_value(bytes);
        assert(v % 256 == bytes[0]);
        assert(v / 256 == le_value(rest));
        assert(le_bytes(v, bytes.len()) =~= bytes);
    }
}

/// Reads the number held in the 8 bytes of `bytes` from `start` on, least
/// significant first.
fn read_u64_le(bytes: &[u8], start: usize) -> (v: u64)
    requires
        start + 8 <= bytes@.len(),
    ensures
        v as nat == le_value(bytes@.subrange(start as int, start + 8)),
{
    let mut v: u64 = 0;
    let mut i: usize = 8;
    proof {
        lemma_pow256_eight();
    }
    while i > 0
        invariant
            start + 8 <= bytes@.len(),
            bytes@.len() == bytes.len(),
            i <= 8,
            v as nat == le_value(bytes@.subrange(start + i, start + 8)),
            v < pow256((8 - i) as nat),
            pow256(8) == 0x1_0000_0000_0000_0000,
        decreases i,
    {
        i = i - 1;
        proof {
            let s = bytes@.subrange(start + i, start + 8);
            assert(s.drop_first() =~= bytes@.subrange(start + i + 1, start + 8));
            lemma_pow256_monotone((8 - i) as nat, 8);
        }
        let b: u8 = bytes[start + i];
        v = v * 256 + b as u64;
    }
    v
}

/// Appends the 8 bytes of `x`, least significant first.
fn write_u64_le(x: u64, out: &mut Vec<u8>)
    ensures
        final(out)@ == old(out)@ + le_bytes(x as nat, 8),
{
    let mut v: u64 = x;
    let mut i: usize = 0;
    while i < 8
        invariant
            i <= 8,
            out@ + le_bytes(v as nat, (8 - i) as nat) == old(out)@ + le_bytes(x as nat, 8),
        decreases 8 - i,
    {
        let ghost before = out@;
        out.push((v % 256) as u8);
        proof {
            assert(le_bytes(v as nat, (8 - i) as nat) == seq![(v % 256) as u8] + le_bytes(
                (v / 256) as nat,
                (8 - i - 1) as nat,
            ));
            assert(out@ + le_bytes((v / 256) as nat, (8 - i - 1) as nat) =~= before + le_bytes(
                v as nat,
                (8 - i) as nat,
            ));
        }
        v = v / 256;
        i = i + 1;
    }
}

/// Appends the encoding of `noun` to `out`.
fn serialize_into(noun: &Noun, out: &mut Vec<u8>)
    ensures
        final(out)@ == old(out)@ + encode(*noun),
    decreases noun,
{
    match noun {
        Noun::Atom(x) => {
            out.push(0u8);
            write_u64_le(*x, out);
            assert(out@ =~= old(out)@ + encode(*noun));
        },
        Noun::Cell(h, t) => {
            out.push(1u8);
            serialize_into(&**h, out);
            serialize_into(&**t, out);
            assert(out@ =~= old(out)@ + encode(*noun));
        },
    }
}

/// The byte encoding of `noun`.
pub fn serialize(noun: Noun) -> (bytes: Vec<u8>)
    ensures
        bytes@ == encode(noun),
{
    let mut bytes: Vec<u8> = Vec::new();
    serialize_into(&noun, &mut bytes);
    assert(bytes@ =~= encode(noun));
    bytes
}

proof fn lemma_pow256_positive(n: nat)
    ensures
        pow256(n) > 0,
    decreases n,
{
    if n > 0 {
        lemma_pow256_positive((n - 1) as nat);
    }
}

proof fn lemma_le_bytes_len(x: nat, count: nat)
    ensures
        le_bytes(x, count).len() == count,
    decreases count,
{
    if count > 0 {
        lemma_le_bytes_len(x / 256, (count - 1) as nat);
    }
}

/// Byte `i` of the little-endian bytes of `x` is digit `i` of `x` in base
/// 256.
pub proof fn lemma_le_bytes_index(x: nat, count: nat, i: nat)
    requires
        i < count,
    ensures
        le_bytes(x, count)[i as int] == ((x / pow256(i)) % 256) as u8,
    decreases i,
{
    lemma_le_bytes_len(x, count);
    lemma_le_bytes_len(x / 256, (count - 1) as nat);
    if i == 0 {
        assert(pow256(0) == 1);
        assert(x / 1 == x);
    } else {
        lemma_le_bytes_index(x / 256, (count - 1) as nat, (i - 1) as nat);
        lemma_pow256_positive((i - 1) as nat);
        vstd::arithmetic::div_mod::lemma_div_denominator(x as int, 256, pow256((i - 1) as nat) as int);
        assert(le_bytes(x, count)[i as int] == le_bytes(x / 256, (count - 1) as nat)[i - 1]);
    }
}

/// The encoding of an atom is the byte 0 followed by its number in base 256,
/// least significant digit first, in 8 bytes.
pub proof fn lemma_encode_atom(x: u64)
    ensures
        encode(Noun::Atom(x)).len() == 9,
        encode(Noun::Atom(x))[0] == 0,
        forall|i: int| 0 <= i < 8 ==> #[trigger] encode(Noun::Atom(x))[i + 1] == ((x as nat / pow256(i as nat)) % 256) as u8,
{
    lemma_pow256_eight();
    lemma_le_roundtrip(x as nat, 8);
    assert forall|i: int| 0 <= i < 8 implies #[trigger] encode(Noun::Atom(x))[i + 1] == ((x as nat / pow256(i as nat)) % 256) as u8 by {
        lemma_le_bytes_index(x as nat, 8, i as nat);
    }
}

/// The encoding of a cell is the byte 1 followed by the encoding of its head
/// and the encoding of its tail.
pub proof fn lemma_encode_cell(head: Noun, tail: Noun)
    ensures
        encode(Noun::pair(head, tail)) == seq![1u8] + encode(head) + encode(tail),
{
}

/// A decoded noun takes at least one byte and no more than there are.
pub proof fn lemma_decode_bound(bytes: Seq<u8>)
    ensures
        decode(bytes) matches Some((_, used)) ==> 1 <= used <= bytes.len(),
    decreases bytes.len(),
{
    if bytes.len() > 0 && bytes[0] == 1 {
        let rest = bytes.drop_first();
        lemma_decode_bound(rest);
        if let Some((_, used)) = decode(rest) {
            if used <= rest.len() {
                lemma_decode_bound(rest.skip(used as int));
            }
        }
    }
}

/// Decoding reads back an encoded noun, whatever bytes follow it, and takes
/// exactly the bytes of its encoding.
pub proof fn lemma_decode_encode(noun: Noun, rest: Seq<u8>)
    ensures
        decode(encode(noun) + rest) == Some((noun, encode(noun).len())),
    decreases noun,
{
    let bytes = encode(noun) + rest;
    match noun {
        Noun::Atom(x) => {
            lemma_pow256_eight();
            lemma_le_roundtrip(x as nat, 8);
            assert(bytes.subrange(1, 9) =~= le_bytes(x as nat, 8));
        },
        Noun::Cell(_, _) => {
            let eh = encode(noun.head());
            let et = encode(noun.tail());
            lemma_decode_encode(noun.head(), et + rest);
            lemma_decode_encode(noun.tail(), rest);
            assert(bytes.drop_first() =~= eh + (et + rest));
            assert(bytes.drop_first().skip(eh.len() as int) =~= et + rest);
        },
    }
}

/// What decoding reads is encoded back as exactly the bytes it took.
pub proof fn lemma_encode_decode(bytes: Seq<u8>)
    ensures
        decode(bytes) matches Some((noun, used)) ==> encode(noun) == bytes.take(used as int),
    decreases bytes.len(),
{
    if bytes.len() > 0 {
        if bytes[0] == 0 && bytes.len() >= 9 {
            let s = bytes.subrange(1, 9);
            lemma_le_bytes_of_value(s);
            lemma_pow256_eight();
            assert(encode(decode(bytes).unwrap().0) =~= bytes.take(9));
        } else if bytes[0] == 1 {
            let rest = bytes.drop_first();
            lemma_encode_decode(rest);
            lemma_decode_bound(rest);
            if let Some((head, used)) = decode(rest) {
                if used <= rest.len() {
                    let more = rest.skip(used as int);
                    lemma_encode_decode(more);
                    lemma_decode_bound(more);
                    if let Some((tail, used2)) = decode(more) {
                        assert(encode(Noun::pair(head, tail)) =~= bytes.take((used + used2 + 1) as int));
                    }
                }
            }
        }
    }
}

/// Decodes the noun at the start of `bytes`, with the number of bytes it
/// takes; `None` where the bytes do not start with an encoded noun.
pub fn deserialize_checked(bytes: &[u8]) -> (r: Option<(Noun, usize)>)
    ensures
        match r {
            Some((noun, used)) => decode(bytes@) == Some((noun, used as nat)),
            None => decode(bytes@) is None,
        },
    decreases bytes@.len(),
{
    if bytes.len() == 0 {
        return None;
    }
    if bytes[0] == 0u8 {
        if bytes.len() >= 9 {
            let v = read_u64_le(bytes, 1);
            proof {
                lemma_le_bytes_of_value(bytes@.subrange(1, 9));
                lemma_pow256_eight();
            }
            Some((Noun::Atom(v), 9))
        } else {
            None
        }
    } else if bytes[0] == 1u8 {
        let rest = &bytes[1..bytes.len()];
        assert(rest@ =~= bytes@.drop_first());
        proof {
            lemma_decode_bound(rest@);
        }
        match deserialize_checked(rest) {
            Some((head, used)) => {
                let more = &rest[used..rest.len()];
                assert(more@ =~= rest@.skip(used as int));
                proof {
                    lemma_decode_bound(more@);
                }
                match deserialize_checked(more) {
                    Some((tail, used2)) => Some((Noun::cons(head, tail), used + used2 + 1)),
                    None => None,
                }
            },
            None => None,
        }
    } else {
        None
    }
}

/// Decodes the noun at the start of `bytes`, with the number of bytes it
/// takes.
fn deserialize_inner(bytes: &[u8]) -> (r: (Noun, usize))
    requires
        decode(bytes@) is Some,
    ensures
        decode(bytes@) == Some((r.0, r.1 as nat)),
{
    match deserialize_checked(bytes) {
        Some(found) => found,
        None => (Noun::Atom(0), 0),
    }
}

/// Decodes the noun at the start of `bytes`; what follows it is ignored.
pub fn deserialize(bytes: &[u8]) -> (noun: Noun)
    requires
        decode(bytes@) is Some,
    ensures
        decode(bytes@) matches Some((n, _)) && n == noun,
{
    let (noun, _) = deserialize_inner(bytes);
    noun
}

} // verus!
