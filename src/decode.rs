//! Decoding of the hex text that a contract call returns: an unsigned
//! integer, an address, a string, or an array of strings.

use vstd::prelude::*;
use vstd::string::StringSliceAdditionalSpecFns;
use vstd::utf8::{decode_utf8, encode_utf8, valid_utf8};
use crate::digits::{all_digits_in, all_hex_digits, decode_hex, hex_decoding, hex_value, parsed_u64, read_hex_u64};
use crate::encode::has_hex_prefix;

verus! {

/// Why returned data could not be decoded.
#[derive(Debug, Clone, Copy, PartialEq, Eq, Structural)]
pub enum DecodeError {
    /// The data ends before a word or a byte range that it refers to.
    Truncated,
    /// A character that must be a hex digit is not one, or the digits are odd in number.
    InvalidHex,
    /// The bytes of a string are not valid UTF-8.
    InvalidUtf8,
    /// The bytes do not lay out an ABI-encoded `string[]`.
    InvalidLayout,
}

impl DecodeError {
    /// A short text for the error.
    pub fn message(&self) -> (r: &'static str)
        ensures
            *self == DecodeError::Truncated ==> r@ == "Invalid data"@,
            *self == DecodeError::InvalidHex ==> r@ == "Invalid hex"@,
            *self == DecodeError::InvalidUtf8 ==> r@ == "Invalid UTF-8"@,
            *self == DecodeError::InvalidLayout ==> r@ == "Invalid layout"@,
    {
        match self {
            DecodeError::Truncated => "Invalid data",
            DecodeError::InvalidHex => "Invalid hex",
            DecodeError::InvalidUtf8 => "Invalid UTF-8",
            DecodeError::InvalidLayout => "Invalid layout",
        }
    }
}

/// `t` without a leading `0x`, if it has one.
pub open spec fn strip_prefix(t: Seq<u8>) -> Seq<u8> {
    if has_hex_prefix(t) {
        t.subrange(2, t.len() as int)
    } else {
        t
    }
}

/// The unsigned integer in `text`; zero when it is not a hex number that
/// fits in a `u64`.
pub open spec fn uint_of(text: Seq<u8>) -> u64 {
    match parsed_u64(strip_prefix(text)) {
        Some(v) => v,
        None => 0,
    }
}

/// The address in the first word of `text`: `0x` and the digits at
/// positions 24 to 64, the low 20 bytes of the word.
pub open spec fn address_of(text: Seq<u8>) -> Result<Seq<u8>, DecodeError> {
    let t = strip_prefix(text);
    if t.len() < 64 {
        Err(DecodeError::Truncated)
    } else if !all_hex_digits(t.subrange(24, 64)) {
        Err(DecodeError::InvalidHex)
    } else {
        Ok(seq![48u8, 120] + t.subrange(24, 64))
    }
}

/// The UTF-8 bytes of the string that `text` encodes: the first word is the
/// byte offset of a length word, which the string's digits follow.
pub open spec fn string_bytes_of(text: Seq<u8>) -> Result<Seq<u8>, DecodeError> {
    let t = strip_prefix(text);
    if t.len() < 128 {
        Err(DecodeError::Truncated)
    } else if !all_hex_digits(t.subrange(0, 64)) {
        Err(DecodeError::InvalidHex)
    } else {
        let at = 2 * hex_value(t.subrange(0, 64));
        if at + 64 > t.len() {
            Err(DecodeError::Truncated)
        } else if !all_hex_digits(t.subrange(at as int, (at + 64) as int)) {
            Err(DecodeError::InvalidHex)
        } else {
            let start = at + 64;
            let end = start + 2 * hex_value(t.subrange(at as int, (at + 64) as int));
            if end > t.len() {
                Err(DecodeError::Truncated)
            } else if !all_hex_digits(t.subrange(start as int, end as int)) {
                Err(DecodeError::InvalidHex)
            } else if !valid_utf8(hex_decoding(t.subrange(start as int, end as int))) {
                Err(DecodeError::InvalidUtf8)
            } else {
                Ok(hex_decoding(t.subrange(start as int, end as int)))
            }
        }
    }
}

/// A decoded text result, seen as its UTF-8 bytes.
pub open spec fn text_result(r: Result<String, DecodeError>) -> Result<Seq<u8>, DecodeError> {
    match r {
        Ok(s) => Ok(encode_utf8(s@)),
        Err(e) => Err(e),
    }
}

/// Relies on `String::from_utf8`: it succeeds exactly on valid UTF-8, and
/// the string then holds the characters that the bytes encode.
#[verifier::external_body]
fn utf8_string(v: &[u8]) -> (r: Option<String>)
    ensures
        r is Some == valid_utf8(v@),
        r matches Some(s) ==> s@ == decode_utf8(v@),
{
    String::from_utf8(v.to_vec()).ok()
}

proof fn lemma_ascii_valid_utf8(b: Seq<u8>)
    requires
        forall|i: int| 0 <= i < b.len() ==> b[i] < 128,
    ensures
        valid_utf8(b),
        encode_utf8(decode_utf8(b)) == b,
{
    let c = Seq::new(b.len(), |i: int| b[i] as char);
    assert(vstd::utf8::is_ascii_chars(c));
    vstd::utf8::is_ascii_chars_encode_utf8(c);
    assert(encode_utf8(c) =~= b);
    vstd::utf8::encode_utf8_valid_utf8(c);
    vstd::utf8::decode_utf8_encode_utf8(b);
}

/// Where the digits start in `t`: after a leading `0x`, else at zero.
fn prefix_end(t: &[u8]) -> (r: usize)
    ensures
        r <= t@.len(),
        t@.subrange(r as int, t@.len() as int) == strip_prefix(t@),
{
    if t.len() >= 2 && t[0] == 48 && t[1] == 120 {
        2
    } else {
        assert(t@.subrange(0, t@.len() as int) =~= t@);
        0
    }
}

/// The unsigned integer in `hex_str`, with or without `0x`; zero when the
/// rest is empty, holds a non-digit, or exceeds `u64::MAX`.
pub fn decode_uint(hex_str: &str) -> (r: u64)
    ensures
        r == uint_of(hex_str.spec_bytes()),
{
    let t = hex_str.as_bytes();
    let start = prefix_end(t);
    match read_hex_u64(t, start, t.len()) {
        Some(v) => v,
        None => 0,
    }
}

/// The address in the first word of `hex_str`: `0x` followed by the 40
/// digits of the word's low 20 bytes.
pub fn decode_address(hex_str: &str) -> (r: Result<String, DecodeError>)
    ensures
        text_result(r) == address_of(hex_str.spec_bytes()),
{
    let t = hex_str.as_bytes();
    let start = prefix_end(t);
    let ghost s = strip_prefix(t@);
    if t.len() - start < 64 {
        return Err(DecodeError::Truncated);
    }
    assert(s.subrange(24, 64) =~= t@.subrange(start + 24, start + 64));
    if !all_digits_in(t, start + 24, start + 64) {
        return Err(DecodeError::InvalidHex);
    }
    let mut out: Vec<u8> = vec![48u8, 120u8];
    crate::word::push_span(&mut out, t, start + 24, start + 64);
    proof {
        assert(out@ =~= seq![48u8, 120] + s.subrange(24, 64));
        assert forall|i: int| 0 <= i < out@.len() implies out@[i] < 128 by {
            if i >= 2 {
                assert(crate::digits::is_hex_digit(s.subrange(24, 64)[i - 2]));
            }
        }
        lemma_ascii_valid_utf8(out@);
    }
    match utf8_string(out.as_slice()) {
        Some(text) => Ok(text),
        None => Err(DecodeError::InvalidUtf8),
    }
}

/// Reads the word at `pos` of `t` as a value, `Err(InvalidHex)` when it
/// holds a non-digit; a value above `u64::MAX` comes back as `None`.
fn read_word(t: &[u8], pos: usize) -> (r: Result<Option<u64>, DecodeError>)
    requires
        pos + 64 <= t@.len(),
    ensures
        r is Err <==> !all_hex_digits(t@.subrange(pos as int, pos + 64)),
        r matches Err(e) ==> e == DecodeError::InvalidHex,
        r matches Ok(Some(v)) ==> v as nat == hex_value(t@.subrange(pos as int, pos + 64)),
        r matches Ok(None) ==> hex_value(t@.subrange(pos as int, pos + 64)) > u64::MAX,
{
    let len = t.len();
    assert(pos + 64 <= len);
    let end = pos + 64;
    if !all_digits_in(t, pos, end) {
        return Err(DecodeError::InvalidHex);
    }
    Ok(read_hex_u64(t, pos, end))
}

/// The string that `hex_str` encodes: the first word gives the byte offset
/// of a length word, and that many bytes follow it as hex digits.
pub fn decode_string(hex_str: &str) -> (r: Result<String, DecodeError>)
    ensures
        text_result(r) == string_bytes_of(hex_str.spec_bytes()),
{
    let full = hex_str.as_bytes();
    let start = prefix_end(full);
    let t = vstd::slice::slice_subrange(full, start, full.len());
    assert(t@ == strip_prefix(full@));
    let n = t.len();
    if n < 128 {
        return Err(DecodeError::Truncated);
    }
    let offset = match read_word(t, 0) {
        Err(e) => {
            return Err(e);
        },
        Ok(None) => {
            return Err(DecodeError::Truncated);
        },
        Ok(Some(v)) => v,
    };
    if offset > ((n - 64) / 2) as u64 {
        return Err(DecodeError::Truncated);
    }
    let at = (2 * offset) as usize;
    let length = match read_word(t, at) {
        Err(e) => {
            return Err(e);
        },
        Ok(None) => {
            return Err(DecodeError::Truncated);
        },
        Ok(Some(v)) => v,
    };
    let begin = at + 64;
    if length > ((n - begin) / 2) as u64 {
        return Err(DecodeError::Truncated);
    }
    let end = begin + (2 * length) as usize;
    let digits = vstd::slice::slice_subrange(t, begin, end);
    let bytes = match decode_hex(digits) {
        None => {
            return Err(DecodeError::InvalidHex);
        },
        Some(b) => b,
    };
    let ghost raw = bytes@;
    match utf8_string(bytes.as_slice()) {
        Some(text) => {
            proof {
                vstd::utf8::decode_utf8_encode_utf8(raw);
            }
            Ok(text)
        },
        None => Err(DecodeError::InvalidUtf8),
    }
}

/// The elements of the ABI-encoded `bytes[]` in `data`, as `ethabi::decode`
/// reads them. A `string[]` has the same layout.
pub uninterp spec fn abi_bytes_array_of(data: Seq<u8>) -> Option<Seq<Seq<u8>>>;

/// The bytes of each element.
pub open spec fn elements_view(v: Seq<Vec<u8>>) -> Seq<Seq<u8>> {
    v.map_values(|b: Vec<u8>| b@)
}

/// The characters of each string.
pub open spec fn strings_view(v: Seq<String>) -> Seq<Seq<char>> {
    v.map_values(|s: String| s@)
}

pub open spec fn all_valid_utf8(v: Seq<Seq<u8>>) -> bool {
    forall|i: int| 0 <= i < v.len() ==> valid_utf8(#[trigger] v[i])
}

/// The characters that each element encodes as UTF-8.
pub open spec fn decode_all_utf8(v: Seq<Seq<u8>>) -> Seq<Seq<char>> {
    v.map_values(|b: Seq<u8>| decode_utf8(b))
}

/// Relies on `ethabi::decode` with the single parameter type `bytes[]`,
/// whose result depends on the bytes alone; the tokens of the decoded array
/// are taken out as byte vectors.
#[verifier::external_body]
fn abi_decode_bytes_array(data: &[u8]) -> (r: Option<Vec<Vec<u8>>>)
    ensures
        r matches Some(v) ==> abi_bytes_array_of(data@) == Some(elements_view(v@)),
        r is None ==> abi_bytes_array_of(data@) is None,
{
    let bytes_array = ethabi::ParamType::Array(Box::new(ethabi::ParamType::Bytes));
    let tokens = ethabi::decode(&[bytes_array], data).ok()?;
    let items = tokens.into_iter().next()?.into_array()?;
    items.into_iter().map(|t| t.into_bytes()).collect()
}

/// The strings of the `string[]` that `text` encodes.
pub open spec fn string_array_of(text: Seq<u8>) -> Result<Seq<Seq<char>>, DecodeError> {
    let t = strip_prefix(text);
    if t.len() % 2 != 0 || !all_hex_digits(t) {
        Err(DecodeError::InvalidHex)
    } else {
        match abi_bytes_array_of(hex_decoding(t)) {
            Some(v) => if all_valid_utf8(v) {
                Ok(decode_all_utf8(v))
            } else {
                Err(DecodeError::InvalidUtf8)
            },
            None => Err(DecodeError::InvalidLayout),
        }
    }
}

/// The strings of the ABI-encoded `string[]` in `hex_str`, in order; an
/// element that is not valid UTF-8 fails the whole decode.
pub fn decode_string_array(hex_str: &str) -> (r: Result<Vec<String>, DecodeError>)
    ensures
        r matches Ok(v) ==> string_array_of(hex_str.spec_bytes()) == Ok::<Seq<Seq<char>>, DecodeError>(strings_view(v@)),
        r matches Err(e) ==> string_array_of(hex_str.spec_bytes()) == Err::<Seq<Seq<char>>, DecodeError>(e),
{
    let full = hex_str.as_bytes();
    let start = prefix_end(full);
    let t = vstd::slice::slice_subrange(full, start, full.len());
    let data = match decode_hex(t) {
        None => {
            return Err(DecodeError::InvalidHex);
        },
        Some(b) => b,
    };
    let items = match abi_decode_bytes_array(data.as_slice()) {
        None => {
            return Err(DecodeError::InvalidLayout);
        },
        Some(v) => v,
    };
    let ghost raw = elements_view(items@);
    assert(t@ == strip_prefix(full@));
    assert(string_array_of(hex_str.spec_bytes()) == if all_valid_utf8(raw) {
        Ok::<Seq<Seq<char>>, DecodeError>(decode_all_utf8(raw))
    } else {
        Err::<Seq<Seq<char>>, DecodeError>(DecodeError::InvalidUtf8)
    });
    let mut out: Vec<String> = Vec::new();
    let mut i: usize = 0;
    while i < items.len()
        invariant
            raw == elements_view(items@),
            string_array_of(hex_str.spec_bytes()) == if all_valid_utf8(raw) {
                Ok::<Seq<Seq<char>>, DecodeError>(decode_all_utf8(raw))
            } else {
                Err::<Seq<Seq<char>>, DecodeError>(DecodeError::InvalidUtf8)
            },
            i <= items@.len(),
            out@.len() == i,
            forall|k: int| 0 <= k < i ==> valid_utf8(#[trigger] raw[k]),
            forall|k: int| 0 <= k < i ==> (#[trigger] out@[k])@ == decode_utf8(raw[k]),
        decreases items@.len() - i,
    {
        assert(items@[i as int]@ == raw[i as int]);
        match utf8_string(items[i].as_slice()) {
            Some(s) => {
                out.push(s);
            },
            None => {
                assert(!valid_utf8(raw[i as int]));
                return Err(DecodeError::InvalidUtf8);
            },
        }
        i = i + 1;
    }
    assert(strings_view(out@) =~= decode_all_utf8(raw));
    Ok(out)
}

} // verus!
