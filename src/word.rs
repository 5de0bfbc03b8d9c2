//! The 32-byte word as 64 hex digits: left padding for static values, right
//! padding for dynamic byte payloads, and lengths written as hex digits.

use vstd::prelude::*;
use crate::digits::{all_hex_digits, digit_char, digit_value, hex_value, is_hex_digit, lemma_digit_char};

verus! {

/// The number of hex digits in one word.
pub const WORD_DIGITS: usize = 64;

/// `n` copies of the digit `0`.
pub open spec fn zeros(n: nat) -> Seq<u8> {
    Seq::new(n, |i: int| 48u8)
}

/// `s` right-aligned in one word, zero-filled on the left.
pub open spec fn pad_left(s: Seq<u8>) -> Seq<u8> {
    zeros((64 - s.len()) as nat) + s
}

/// `s` followed by the zeros that bring it to a multiple of one word.
pub open spec fn pad_right(s: Seq<u8>) -> Seq<u8> {
    s + zeros(pad_right_amount(s.len()))
}

/// The lowercase hex digits of `n`, without leading zeros (`0` for zero).
pub open spec fn hex_digits_of(n: nat) -> Seq<u8>
    decreases n,
{
    if n < 16 {
        seq![digit_char(n)]
    } else {
        hex_digits_of(n / 16) + seq![digit_char(n % 16)]
    }
}

/// One word holding the number `n`.
pub open spec fn word_of(n: nat) -> Seq<u8> {
    pad_left(hex_digits_of(n))
}

proof fn lemma_hex_digits_len(n: nat)
    requires
        n <= u64::MAX,
    ensures
        1 <= hex_digits_of(n).len() <= 16,
{
    reveal_with_fuel(pow16, 17);
    assert(pow16(16) == 0x1_0000_0000_0000_0000);
    lemma_hex_digits_len_below(n, 16, 0x1_0000_0000_0000_0000);
}

proof fn lemma_hex_digits_len_below(n: nat, k: nat, p: nat)
    requires
        n < p,
        p == pow16(k),
        k >= 1,
    ensures
        1 <= hex_digits_of(n).len() <= k,
    decreases k,
{
    if n >= 16 {
        assert(pow16(k) == 16 * pow16((k - 1) as nat));
        if k == 1 {
            assert(pow16(0) == 1);
        }
        assert(n / 16 < pow16((k - 1) as nat)) by (nonlinear_arith)
            requires
                n < p,
                p == 16 * pow16((k - 1) as nat),
        ;
        lemma_hex_digits_len_below(n / 16, (k - 1) as nat, pow16((k - 1) as nat));
    }
}

pub open spec fn pow16(k: nat) -> nat
    decreases k,
{
    if k == 0 {
        1
    } else {
        16 * pow16((k - 1) as nat)
    }
}

pub proof fn lemma_pad_right_len(l: nat)
    ensures
        pad_right_amount(l) < 64,
        (l + pad_right_amount(l)) % 64 == 0,
{
    let m = l % 64;
    let q = l / 64;
    vstd::arithmetic::div_mod::lemma_fundamental_div_mod(l as int, 64);
    if m == 0 {
        assert(pad_right_amount(l) == 0);
    } else {
        assert(pad_right_amount(l) == 64 - m);
        assert(l + 64 - m == 64 * (q + 1));
        vstd::arithmetic::div_mod::lemma_mod_multiples_basic((q + 1) as int, 64);
    }
}

/// How many zeros `pad_right` adds after `l` digits.
pub open spec fn pad_right_amount(l: nat) -> nat {
    ((64 - l % 64) % 64) as nat
}

/// The digits of `n` are hex digits and read back as `n`.
proof fn lemma_hex_digits_value(n: nat)
    ensures
        all_hex_digits(hex_digits_of(n)),
        hex_value(hex_digits_of(n)) == n,
    decreases n,
{
    let d = hex_digits_of(n);
    if n < 16 {
        lemma_digit_char(n);
        assert(d.drop_last() =~= Seq::<u8>::empty());
        assert(hex_value(d.drop_last()) == 0);
        assert(d.last() == digit_char(n));
    } else {
        lemma_hex_digits_value(n / 16);
        lemma_digit_char(n % 16);
        assert(d.drop_last() =~= hex_digits_of(n / 16));
        assert(d.last() == digit_char(n % 16));
        assert(hex_value(d) == hex_value(d.drop_last()) * 16 + digit_value(d.last()));
        assert((n / 16) * 16 + n % 16 == n);
        assert forall|i: int| 0 <= i < d.len() implies #[trigger] is_hex_digit(d[i]) by {
            if i < d.len() - 1 {
                assert(d[i] == hex_digits_of(n / 16)[i]);
            }
        }
    }
}

/// Leading zeros change neither the digits' validity nor their value.
proof fn lemma_zeros_prefix(k: nat, s: Seq<u8>)
    ensures
        hex_value(zeros(k) + s) == hex_value(s),
        all_hex_digits(s) ==> all_hex_digits(zeros(k) + s),
    decreases s.len(),
{
    let t = zeros(k) + s;
    assert forall|i: int| 0 <= i < t.len() && all_hex_digits(s) implies #[trigger] is_hex_digit(t[i]) by {
        if i >= k {
            assert(t[i] == s[i - k]);
        }
    }
    if s.len() == 0 {
        assert(t =~= zeros(k));
        lemma_zeros_value(k);
    } else {
        assert(t.drop_last() =~= zeros(k) + s.drop_last());
        lemma_zeros_prefix(k, s.drop_last());
    }
}

proof fn lemma_zeros_value(k: nat)
    ensures
        hex_value(zeros(k)) == 0,
    decreases k,
{
    if k > 0 {
        assert(zeros(k).drop_last() =~= zeros((k - 1) as nat));
        lemma_zeros_value((k - 1) as nat);
    }
}

/// A word holding a number below 2^64: 64 digits that read back as the
/// number, the first 48 of them zeros.
pub proof fn lemma_word_of(n: nat)
    requires
        n <= u64::MAX,
    ensures
        word_of(n).len() == 64,
        all_hex_digits(word_of(n)),
        hex_value(word_of(n)) == n,
        word_of(n)[0] == 48,
        word_of(n)[1] == 48,
{
    lemma_hex_digits_len(n);
    lemma_hex_digits_value(n);
    lemma_zeros_prefix((64 - hex_digits_of(n).len()) as nat, hex_digits_of(n));
}

/// Appends `src[start..end]` to `out`.
pub(crate) fn push_span(out: &mut Vec<u8>, src: &[u8], start: usize, end: usize)
    requires
        start <= end <= src@.len(),
    ensures
        final(out)@ == old(out)@ + src@.subrange(start as int, end as int),
{
    let mut i: usize = start;
    while i < end
        invariant
            start <= i <= end <= src@.len(),
            out@ == old(out)@ + src@.subrange(start as int, i as int),
        decreases end - i,
    {
        out.push(src[i]);
        assert(src@.subrange(start as int, i + 1) =~= src@.subrange(start as int, i as int).push(
            src@[i as int],
        ));
        i = i + 1;
    }
}

/// Appends `n` zero digits to `out`.
pub(crate) fn push_zeros(out: &mut Vec<u8>, n: usize)
    ensures
        final(out)@ == old(out)@ + zeros(n as nat),
{
    let mut i: usize = 0;
    while i < n
        invariant
            i <= n,
            out@ == old(out)@ + zeros(i as nat),
        decreases n - i,
    {
        out.push(48);
        assert(zeros((i + 1) as nat) =~= zeros(i as nat).push(48));
        i = i + 1;
    }
}

/// Appends the hex digits of `n` to `out`.
pub(crate) fn push_hex_digits(out: &mut Vec<u8>, n: u64)
    ensures
        final(out)@ == old(out)@ + hex_digits_of(n as nat),
    decreases n,
{
    if n >= 16 {
        push_hex_digits(out, n / 16);
    }
    let v: u8 = (n % 16) as u8;
    let c: u8 = if v < 10 { 48 + v } else { 87 + v };
    out.push(c);
    proof {
        if n < 16 {
            assert(hex_digits_of(n as nat) == seq![digit_char(n as nat)]);
        }
    }
    assert(final(out)@ =~= old(out)@ + hex_digits_of(n as nat)) by {
        reveal_with_fuel(hex_digits_of, 1);
    }
}

/// `s` right-aligned in one word of 64 digits, zero-filled on the left.
pub fn pad_left_zero(s: &[u8]) -> (r: Vec<u8>)
    requires
        s@.len() <= 64,
    ensures
        r@ == pad_left(s@),
        r@.len() == 64,
{
    let mut out: Vec<u8> = Vec::new();
    push_zeros(&mut out, WORD_DIGITS - s.len());
    push_span(&mut out, s, 0, s.len());
    assert(s@.subrange(0, s@.len() as int) =~= s@);
    out
}

/// `s` followed by zeros up to the next multiple of 64 digits.
pub fn pad_right_zero_to_word_boundary(s: &[u8]) -> (r: Vec<u8>)
    ensures
        r@ == pad_right(s@),
        r@.len() % 64 == 0,
{
    let mut out: Vec<u8> = Vec::new();
    push_span(&mut out, s, 0, s.len());
    assert(s@.subrange(0, s@.len() as int) =~= s@);
    push_zeros(&mut out, (WORD_DIGITS - s.len() % WORD_DIGITS) % WORD_DIGITS);
    proof {
        lemma_pad_right_len(s@.len());
    }
    out
}

/// The lowercase hex digits of `n`, without a `0x` prefix or leading zeros.
pub fn hex_len(n: u64) -> (r: Vec<u8>)
    ensures
        r@ == hex_digits_of(n as nat),
        1 <= r@.len() <= 16,
{
    let mut out: Vec<u8> = Vec::new();
    push_hex_digits(&mut out, n);
    assert(out@ =~= hex_digits_of(n as nat));
    proof {
        lemma_hex_digits_len(n as nat);
    }
    out
}

/// One word of 64 digits holding `n`.
pub fn word_for(n: u64) -> (r: Vec<u8>)
    ensures
        r@ == word_of(n as nat),
        r@.len() == 64,
{
    let digits = hex_len(n);
    pad_left_zero(digits.as_slice())
}

} // verus!
