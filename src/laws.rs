//! Properties that relate the encoder, the word codec and the decoders.

use vstd::prelude::*;
use vstd::utf8::encode_utf8;
use crate::digits::{all_hex_digits, hex_decoding, hex_encoding, is_hex_digit, lemma_hex_encoding};
use crate::decode::{address_of, string_bytes_of, strip_prefix, uint_of, DecodeError};
use crate::encode::{call_arguments, call_payload, contains, string_marker, uint_pair_marker};
use crate::selector::selector_of;
use crate::word::{lemma_pad_right_len, lemma_word_of, pad_right, word_of};

verus! {

/// The selector is a function of the signature: equal signatures give equal
/// selectors.
pub proof fn lemma_selector_deterministic(sig1: Seq<u8>, sig2: Seq<u8>)
    requires
        sig1 == sig2,
    ensures
        selector_of(sig1) == selector_of(sig2),
{
}

/// Every payload that encodes starts with `0x` and the hex digits of its
/// signature's selector, so two argument lists for one signature give
/// payloads with the same beginning.
pub proof fn lemma_payload_starts_with_selector(sig: Seq<u8>, args1: Seq<Seq<u8>>, args2: Seq<Seq<u8>>)
    requires
        call_payload(sig, args1) is Ok,
        call_payload(sig, args2) is Ok,
    ensures
        ({
            let head = seq![48u8, 120] + hex_encoding(selector_of(sig));
            &&& call_payload(sig, args1)->Ok_0.subrange(0, head.len() as int) == head
            &&& call_payload(sig, args2)->Ok_0.subrange(0, head.len() as int) == head
        }),
{
    let head = seq![48u8, 120] + hex_encoding(selector_of(sig));
    assert(call_payload(sig, args1)->Ok_0.subrange(0, head.len() as int) =~= head);
    assert(call_payload(sig, args2)->Ok_0.subrange(0, head.len() as int) =~= head);
}

/// A string encoded as the single dynamic argument of a call decodes back
/// to the same string: the argument words of a signature that names
/// `string` (and not `,uint256,uint256`), read by the string decoder, give
/// back the argument's UTF-8 bytes, with no padding in them.
pub proof fn lemma_string_round_trip(sig: Seq<u8>, s: Seq<char>)
    requires
        contains(sig, string_marker()),
        !contains(sig, uint_pair_marker()),
        encode_utf8(s).len() <= usize::MAX,
    ensures
        call_arguments(sig, seq![encode_utf8(s)]) is Ok,
        string_bytes_of(call_arguments(sig, seq![encode_utf8(s)])->Ok_0) == Ok::<Seq<u8>, DecodeError>(encode_utf8(s)),
{
    let b = encode_utf8(s);
    let len = b.len();
    let e = hex_encoding(b);
    let w = call_arguments(sig, seq![b])->Ok_0;
    assert(seq![b][0] == b);
    assert(w == word_of(32) + (word_of(len) + pad_right(e)));
    lemma_word_of(32);
    lemma_word_of(len);
    lemma_hex_encoding(b);
    lemma_pad_right_len(e.len());
    vstd::utf8::encode_utf8_valid_utf8(s);
    assert(strip_prefix(w) == w);
    assert(w.subrange(0, 64) =~= word_of(32));
    assert(w.subrange(64, 128) =~= word_of(len));
    assert(w.subrange(128, (128 + 2 * len) as int) =~= e);
}

/// A number written as a zero-padded word and read by the integer decoder
/// comes back unchanged, for every `u64`.
pub proof fn lemma_uint_round_trip(n: u64)
    ensures
        uint_of(word_of(n as nat)) == n,
{
    lemma_word_of(n as nat);
    assert(strip_prefix(word_of(n as nat)) == word_of(n as nat));
}

/// The address decoder recovers the 20 bytes held in the low part of a
/// word, whatever its high 24 digits are: it returns `0x` and their 40
/// digits, which decode to those bytes.
pub proof fn lemma_address_recovery(high: Seq<u8>, addr: Seq<u8>)
    requires
        high.len() == 24,
        all_hex_digits(high),
        addr.len() == 20,
    ensures
        address_of(high + hex_encoding(addr)) == Ok::<Seq<u8>, DecodeError>(seq![48u8, 120] + hex_encoding(addr)),
        hex_decoding((seq![48u8, 120] + hex_encoding(addr)).subrange(2, 42)) == addr,
{
    let w = high + hex_encoding(addr);
    lemma_hex_encoding(addr);
    assert(is_hex_digit(high[1]));
    assert(w[1] == high[1]);
    assert(strip_prefix(w) == w);
    assert(w.subrange(24, 64) =~= hex_encoding(addr));
    assert((seq![48u8, 120] + hex_encoding(addr)).subrange(2, 42) =~= hex_encoding(addr));
}

/// Data with fewer than 128 digits after an optional `0x` is rejected as
/// truncated by the string decoder.
pub proof fn lemma_short_string_rejected(text: Seq<u8>)
    requires
        strip_prefix(text).len() < 128,
    ensures
        string_bytes_of(text) == Err::<Seq<u8>, DecodeError>(DecodeError::Truncated),
{
}

} // verus!
