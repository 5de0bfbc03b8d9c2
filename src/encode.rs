//! Call payloads: `0x`, the selector, then the argument words.
//!
//! The layout is chosen from the signature text. Without `string` every
//! argument is one static word. With `string` followed by
//! `,uint256,uint256` the first argument is a dynamic string and the next two
//! are static words. Otherwise the first argument is a single dynamic string.

use vstd::prelude::*;
use vstd::string::StringSliceAdditionalSpecFns;
use vstd::utf8::encode_utf8;
use crate::digits::{encode_hex, hex_encoding};
use crate::selector::{selector_hex, selector_of};
use crate::word::{pad_left, pad_left_zero, pad_right, pad_right_zero_to_word_boundary, word_for, word_of};

verus! {

/// Why an argument list could not be encoded.
#[derive(Debug, Clone, Copy, PartialEq, Eq, Structural)]
pub enum EncodeError {
    /// The signature's layout needs more arguments than were given.
    MissingArgument,
    /// A static argument does not fit in one word of 64 digits.
    ArgumentTooLong,
}

/// Whether `pat` occurs in `s` at some position.
pub open spec fn contains(s: Seq<u8>, pat: Seq<u8>) -> bool {
    exists|i: int| 0 <= i && i + pat.len() <= s.len() && #[trigger] s.subrange(i, i + pat.len()) == pat
}

/// The bytes of `string`.
pub open spec fn string_marker() -> Seq<u8> {
    seq![115u8, 116, 114, 105, 110, 103]
}

/// The bytes of `,uint256,uint256`.
pub open spec fn uint_pair_marker() -> Seq<u8> {
    seq![44u8, 117, 105, 110, 116, 50, 53, 54, 44, 117, 105, 110, 116, 50, 53, 54]
}

/// Whether `a` starts with `0x`.
pub open spec fn has_hex_prefix(a: Seq<u8>) -> bool {
    a.len() >= 2 && a[0] == 48 && a[1] == 120
}

/// The word of a static argument: the text after `0x` as it stands, else the
/// text zero-padded on the left; `None` when either is longer than one word.
pub open spec fn static_word(a: Seq<u8>) -> Option<Seq<u8>> {
    if has_hex_prefix(a) && a.len() <= 66 {
        Some(a.subrange(2, a.len() as int))
    } else if !has_hex_prefix(a) && a.len() <= 64 {
        Some(pad_left(a))
    } else {
        None
    }
}

pub open spec fn all_static_fit(args: Seq<Seq<u8>>) -> bool {
    forall|i: int| 0 <= i < args.len() ==> #[trigger] static_word(args[i]) is Some
}

/// The static words of `args`, in order.
pub open spec fn static_words(args: Seq<Seq<u8>>) -> Seq<u8>
    decreases args.len(),
{
    if args.len() == 0 {
        seq![]
    } else {
        static_words(args.drop_last()) + static_word(args.last())->Some_0
    }
}

/// The dynamic part of a string argument: its byte length as one word, then
/// its bytes as hex digits padded to a word boundary.
pub open spec fn string_tail(s: Seq<u8>) -> Seq<u8> {
    word_of(s.len()) + pad_right(hex_encoding(s))
}

/// The argument words for the signature `sig` and the arguments `args`
/// (each as UTF-8 bytes).
pub open spec fn call_arguments(sig: Seq<u8>, args: Seq<Seq<u8>>) -> Result<Seq<u8>, EncodeError> {
    if !contains(sig, string_marker()) {
        if all_static_fit(args) {
            Ok(static_words(args))
        } else {
            Err(EncodeError::ArgumentTooLong)
        }
    } else if contains(sig, uint_pair_marker()) {
        if args.len() < 3 {
            Err(EncodeError::MissingArgument)
        } else if args[1].len() > 64 || args[2].len() > 64 {
            Err(EncodeError::ArgumentTooLong)
        } else {
            Ok(word_of(96) + pad_left(args[1]) + pad_left(args[2]) + string_tail(args[0]))
        }
    } else {
        if args.len() < 1 {
            Err(EncodeError::MissingArgument)
        } else {
            Ok(word_of(32) + string_tail(args[0]))
        }
    }
}

/// The full payload: `0x`, the selector's eight digits, the argument words.
pub open spec fn call_payload(sig: Seq<u8>, args: Seq<Seq<u8>>) -> Result<Seq<u8>, EncodeError> {
    match call_arguments(sig, args) {
        Ok(w) => Ok(seq![48u8, 120] + hex_encoding(selector_of(sig)) + w),
        Err(e) => Err(e),
    }
}

/// The UTF-8 bytes of each argument.
pub open spec fn args_bytes(args: Seq<String>) -> Seq<Seq<u8>> {
    args.map_values(|s: String| encode_utf8(s@))
}

/// Whether `pat` occurs in `hay` starting at `at`.
fn occurs_at(hay: &[u8], pat: &[u8], at: usize) -> (r: bool)
    requires
        at + pat@.len() <= hay@.len(),
    ensures
        r == (hay@.subrange(at as int, at + pat@.len()) == pat@),
{
    let hay_len = hay.len();
    let mut j: usize = 0;
    while j < pat.len()
        invariant
            at + pat@.len() <= hay@.len(),
            hay_len == hay@.len(),
            j <= pat@.len(),
            forall|k: int| 0 <= k < j ==> hay@[at + k] == pat@[k],
        decreases pat@.len() - j,
    {
        if hay[at + j] != pat[j] {
            assert(hay@.subrange(at as int, at + pat@.len())[j as int] != pat@[j as int]);
            return false;
        }
        j = j + 1;
    }
    assert(hay@.subrange(at as int, at + pat@.len()) =~= pat@);
    true
}

/// Whether `pat` occurs anywhere in `hay`.
pub fn contains_bytes(hay: &[u8], pat: &[u8]) -> (r: bool)
    ensures
        r == contains(hay@, pat@),
{
    if pat.len() > hay.len() {
        return false;
    }
    let last = hay.len() - pat.len();
    let mut i: usize = 0;
    loop
        invariant
            last + pat@.len() == hay@.len(),
            i <= last,
            forall|k: int| 0 <= k < i ==> #[trigger] hay@.subrange(k, k + pat@.len()) != pat@,
        decreases last - i,
    {
        if occurs_at(hay, pat, i) {
            return true;
        }
        if i == last {
            assert(forall|k: int| 0 <= k <= last ==> #[trigger] hay@.subrange(k, k + pat@.len()) != pat@);
            return false;
        }
        i = i + 1;
    }
}

/// Appends the dynamic part of the string argument `s`.
fn push_string_tail(out: &mut Vec<u8>, s: &[u8])
    ensures
        final(out)@ == old(out)@ + string_tail(s@),
{
    let mut len_word = word_for(s.len() as u64);
    let digits = encode_hex(s);
    let mut body = pad_right_zero_to_word_boundary(digits.as_slice());
    out.append(&mut len_word);
    out.append(&mut body);
    assert(final(out)@ =~= old(out)@ + string_tail(s@));
}

/// Appends the static words of `args`, or reports the first argument that
/// does not fit in a word.
fn push_static_words(out: &mut Vec<u8>, args: &Vec<String>) -> (r: Result<(), EncodeError>)
    ensures
        r is Ok == all_static_fit(args_bytes(args@)),
        r is Ok ==> final(out)@ == old(out)@ + static_words(args_bytes(args@)),
        r matches Err(e) ==> e == EncodeError::ArgumentTooLong,
{
    let ghost a = args_bytes(args@);
    let mut i: usize = 0;
    while i < args.len()
        invariant
            a == args_bytes(args@),
            i <= args@.len(),
            forall|k: int| 0 <= k < i ==> #[trigger] static_word(a[k]) is Some,
            out@ == old(out)@ + static_words(a.subrange(0, i as int)),
        decreases args@.len() - i,
    {
        let arg = args[i].as_str().as_bytes();
        assert(arg@ == a[i as int]);
        assert(a.subrange(0, i + 1).drop_last() =~= a.subrange(0, i as int));
        let prefixed = arg.len() >= 2 && arg[0] == 48 && arg[1] == 120;
        if prefixed && arg.len() <= 66 {
            crate::word::push_span(out, arg, 2, arg.len());
        } else if !prefixed && arg.len() <= 64 {
            let mut w = pad_left_zero(arg);
            out.append(&mut w);
        } else {
            assert(static_word(a[i as int]) is None);
            return Err(EncodeError::ArgumentTooLong);
        }
        assert(out@ =~= old(out)@ + static_words(a.subrange(0, i + 1)));
        i = i + 1;
    }
    assert(a.subrange(0, i as int) =~= a);
    Ok(())
}

/// The call payload for `signature` and `args`, as ASCII bytes: `0x`, the
/// eight selector digits, then the argument words.
pub fn encode_call(signature: &str, args: Vec<String>) -> (r: Result<Vec<u8>, EncodeError>)
    ensures
        r matches Ok(p) ==> call_payload(signature.spec_bytes(), args_bytes(args@)) == Ok::<Seq<u8>, EncodeError>(p@),
        r matches Err(e) ==> call_payload(signature.spec_bytes(), args_bytes(args@)) == Err::<Seq<u8>, EncodeError>(e),
{
    let ghost a = args_bytes(args@);
    let sig = signature.as_bytes();
    let mut out: Vec<u8> = vec![48u8, 120u8];
    let mut sel = selector_hex(signature);
    out.append(&mut sel);
    let string_pat: Vec<u8> = vec![115u8, 116, 114, 105, 110, 103];
    let pair_pat: Vec<u8> = vec![44u8, 117, 105, 110, 116, 50, 53, 54, 44, 117, 105, 110, 116, 50, 53, 54];
    assert(string_pat@ == string_marker());
    assert(pair_pat@ == uint_pair_marker());
    if !contains_bytes(sig, string_pat.as_slice()) {
        match push_static_words(&mut out, &args) {
            Ok(()) => {},
            Err(e) => {
                return Err(e);
            },
        }
    } else if contains_bytes(sig, pair_pat.as_slice()) {
        if args.len() < 3 {
            return Err(EncodeError::MissingArgument);
        }
        let subject = args[0].as_str().as_bytes();
        let offset = args[1].as_str().as_bytes();
        let limit = args[2].as_str().as_bytes();
        assert(subject@ == a[0] && offset@ == a[1] && limit@ == a[2]);
        if offset.len() > 64 || limit.len() > 64 {
            return Err(EncodeError::ArgumentTooLong);
        }
        let mut head_word = word_for(96);
        let mut offset_word = pad_left_zero(offset);
        let mut limit_word = pad_left_zero(limit);
        out.append(&mut head_word);
        out.append(&mut offset_word);
        out.append(&mut limit_word);
        push_string_tail(&mut out, subject);
    } else {
        if args.len() < 1 {
            return Err(EncodeError::MissingArgument);
        }
        let subject = args[0].as_str().as_bytes();
        assert(subject@ == a[0]);
        let mut head_word = word_for(32);
        out.append(&mut head_word);
        push_string_tail(&mut out, subject);
    }
    assert(out@ =~= seq![48u8, 120] + hex_encoding(selector_of(sig@)) + call_arguments(sig@, a)->Ok_0);
    Ok(out)
}

} // verus!
