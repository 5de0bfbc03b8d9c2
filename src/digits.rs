//! Hex digits: their values, the encoding of bytes as digit pairs, and the
//! value of a big-endian digit string.

use vstd::prelude::*;

verus! {

/// True for `0-9`, `a-f` and `A-F`.
pub open spec fn is_hex_digit(c: u8) -> bool {
    (48 <= c && c <= 57) || (97 <= c && c <= 102) || (65 <= c && c <= 70)
}

/// The value of a hex digit, in either case.
pub open spec fn digit_value(c: u8) -> nat {
    if 48 <= c && c <= 57 {
        (c - 48) as nat
    } else if 97 <= c && c <= 102 {
        (c - 87) as nat
    } else {
        (c - 55) as nat
    }
}

/// The lowercase digit for a value below sixteen.
pub open spec fn digit_char(v: nat) -> u8 {
    if v < 10 {
        (48 + v) as u8
    } else {
        (87 + v) as u8
    }
}

pub open spec fn all_hex_digits(t: Seq<u8>) -> bool {
    forall|i: int| 0 <= i < t.len() ==> #[trigger] is_hex_digit(t[i])
}

/// Each byte as two lowercase digits, high nibble first.
pub open spec fn hex_encoding(b: Seq<u8>) -> Seq<u8>
    decreases b.len(),
{
    if b.len() == 0 {
        seq![]
    } else {
        hex_encoding(b.drop_last()) + seq![
            digit_char(b.last() as nat / 16),
            digit_char(b.last() as nat % 16),
        ]
    }
}

/// Each pair of digits as one byte, high nibble first.
pub open spec fn hex_decoding(t: Seq<u8>) -> Seq<u8>
    decreases t.len(),
{
    if t.len() < 2 {
        seq![]
    } else {
        hex_decoding(t.subrange(0, t.len() - 2)) + seq![
            (digit_value(t[t.len() - 2]) * 16 + digit_value(t[t.len() - 1])) as u8,
        ]
    }
}

/// The value of a big-endian digit string; zero when it is empty.
pub open spec fn hex_value(t: Seq<u8>) -> nat
    decreases t.len(),
{
    if t.len() == 0 {
        0
    } else {
        hex_value(t.drop_last()) * 16 + digit_value(t.last())
    }
}

/// The value of a non-empty digit string that fits in a `u64`.
pub open spec fn parsed_u64(t: Seq<u8>) -> Option<u64> {
    if t.len() > 0 && all_hex_digits(t) && hex_value(t) <= u64::MAX {
        Some(hex_value(t) as u64)
    } else {
        None
    }
}

pub proof fn lemma_digit_char(v: nat)
    requires
        v < 16,
    ensures
        is_hex_digit(digit_char(v)),
        digit_value(digit_char(v)) == v,
        digit_char(v) != 120,
{
}

/// Hex encoding doubles the length, yields digits only, and hex decoding
/// undoes it.
pub proof fn lemma_hex_encoding(b: Seq<u8>)
    ensures
        hex_encoding(b).len() == 2 * b.len(),
        all_hex_digits(hex_encoding(b)),
        hex_decoding(hex_encoding(b)) == b,
    decreases b.len(),
{
    if b.len() > 0 {
        let x = b.last() as nat;
        let prev = hex_encoding(b.drop_last());
        lemma_hex_encoding(b.drop_last());
        lemma_digit_char(x / 16);
        lemma_digit_char(x % 16);
        let e = hex_encoding(b);
        assert(e == prev + seq![digit_char(x / 16), digit_char(x % 16)]);
        assert(e.subrange(0, e.len() - 2) =~= prev);
        assert forall|i: int| 0 <= i < e.len() implies #[trigger] is_hex_digit(e[i]) by {
            if i < prev.len() {
                assert(e[i] == prev[i]);
            }
        }
        assert((x / 16) * 16 + x % 16 == x);
        assert(hex_decoding(e) =~= b.drop_last().push(b.last()));
        assert(b.drop_last().push(b.last()) =~= b);
    }
}

/// Relies on `hex::encode`: each byte becomes two digits from the table
/// `0123456789abcdef`, high nibble first.
#[verifier::external_body]
pub(crate) fn encode_hex(b: &[u8]) -> (r: Vec<u8>)
    ensures
        r@ == hex_encoding(b@),
{
    hex::encode(b).into_bytes()
}

/// Relies on `hex::decode`: it fails on an odd length or on a character that
/// is not a digit of either case, and otherwise turns each pair into a byte.
#[verifier::external_body]
pub(crate) fn decode_hex(t: &[u8]) -> (r: Option<Vec<u8>>)
    ensures
        r.is_some() == (t@.len() % 2 == 0 && all_hex_digits(t@)),
        r matches Some(v) ==> v@ == hex_decoding(t@),
{
    hex::decode(t).ok()
}

proof fn lemma_hex_value_prefix_le(t: Seq<u8>, j: int)
    requires
        0 <= j <= t.len(),
    ensures
        hex_value(t.subrange(0, j)) <= hex_value(t),
    decreases t.len() - j,
{
    if j < t.len() {
        lemma_hex_value_prefix_le(t, j + 1);
        assert(t.subrange(0, j + 1).drop_last() =~= t.subrange(0, j));
    } else {
        assert(t.subrange(0, j) =~= t);
    }
}

/// Whether `t[start..end]` is made of hex digits.
pub fn all_digits_in(t: &[u8], start: usize, end: usize) -> (r: bool)
    requires
        start <= end <= t@.len(),
    ensures
        r == all_hex_digits(t@.subrange(start as int, end as int)),
{
    let mut i: usize = start;
    while i < end
        invariant
            start <= i <= end <= t@.len(),
            forall|k: int| start <= k < i ==> is_hex_digit(#[trigger] t@[k]),
        decreases end - i,
    {
        let c = t[i];
        if !((48 <= c && c <= 57) || (97 <= c && c <= 102) || (65 <= c && c <= 70)) {
            assert(t@.subrange(start as int, end as int)[i - start] == c);
            assert(!is_hex_digit(t@.subrange(start as int, end as int)[i - start]));
            return false;
        }
        i = i + 1;
    }
    assert forall|k: int| 0 <= k < end - start implies is_hex_digit(
        #[trigger] t@.subrange(start as int, end as int)[k],
    ) by {
        assert(t@.subrange(start as int, end as int)[k] == t@[start + k]);
    }
    true
}

/// The value of `t[start..end]` read as a big-endian hex number, or `None`
/// when the span is empty, holds a non-digit, or exceeds `u64::MAX`.
pub fn read_hex_u64(t: &[u8], start: usize, end: usize) -> (r: Option<u64>)
    requires
        start <= end <= t@.len(),
    ensures
        r == parsed_u64(t@.subrange(start as int, end as int)),
{
    let ghost s = t@.subrange(start as int, end as int);
    if start == end {
        return None;
    }
    if !all_digits_in(t, start, end) {
        return None;
    }
    let mut acc: u64 = 0;
    let mut i: usize = start;
    while i < end
        invariant
            start <= i <= end <= t@.len(),
            s == t@.subrange(start as int, end as int),
            all_hex_digits(s),
            acc as nat == hex_value(s.subrange(0, i - start)),
        decreases end - i,
    {
        let c = t[i];
        assert(s[i - start] == c);
        assert(is_hex_digit(c));
        let d: u64 = if c <= 57 {
            (c - 48) as u64
        } else if c >= 97 {
            (c - 97 + 10) as u64
        } else {
            (c - 65 + 10) as u64
        };
        assert(d as nat == digit_value(c));
        assert(s.subrange(0, i + 1 - start).drop_last() =~= s.subrange(0, i - start));
        if acc > (u64::MAX - d) / 16 {
            proof {
                assert(hex_value(s.subrange(0, i + 1 - start)) > u64::MAX) by (nonlinear_arith)
                    requires
                        acc > (u64::MAX - d) / 16,
                        hex_value(s.subrange(0, i + 1 - start)) == acc * 16 + d,
                        d < 16,
                ;
                lemma_hex_value_prefix_le(s, i + 1 - start);
            }
            return None;
        }
        assert(acc * 16 + d <= u64::MAX) by (nonlinear_arith)
            requires
                acc <= (u64::MAX - d) / 16,
                d < 16,
        ;
        acc = acc * 16 + d;
        i = i + 1;
    }
    assert(s.subrange(0, end - start) =~= s);
    Some(acc)
}

} // verus!
