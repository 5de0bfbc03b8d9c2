//! Function selectors: the first four bytes of the Keccak-256 digest of a
//! canonical signature such as `balanceOf(address)`.

use vstd::prelude::*;
use vstd::string::StringSliceAdditionalSpecFns;
use crate::digits::{encode_hex, hex_encoding};

verus! {

/// The Keccak-256 digest of `b`, as computed by `keccak_hash::keccak`.
pub uninterp spec fn keccak256_of(b: Seq<u8>) -> Seq<u8>;

/// Relies on `keccak_hash::keccak`: the 32-byte Keccak-256 digest of its
/// input, which depends on the input bytes alone.
#[verifier::external_body]
fn keccak256(b: &[u8]) -> (r: Vec<u8>)
    ensures
        r@ == keccak256_of(b@),
        r@.len() == 32,
{
    keccak_hash::keccak(b).as_bytes().to_vec()
}

/// The selector of the signature whose UTF-8 bytes are `sig`.
pub open spec fn selector_of(sig: Seq<u8>) -> Seq<u8> {
    keccak256_of(sig).subrange(0, 4)
}

/// The four selector bytes of `signature`.
pub fn selector(signature: &str) -> (r: [u8; 4])
    ensures
        r@ == selector_of(signature.spec_bytes()),
{
    let digest = keccak256(signature.as_bytes());
    let r = [digest[0], digest[1], digest[2], digest[3]];
    assert(r@ =~= selector_of(signature.spec_bytes()));
    r
}

/// The selector of `signature` as eight lowercase hex digits.
pub fn selector_hex(signature: &str) -> (r: Vec<u8>)
    ensures
        r@ == hex_encoding(selector_of(signature.spec_bytes())),
{
    let sel = selector(signature);
    encode_hex(sel.as_slice())
}

} // verus!
