//! Ethereum contract ABI codec: function selectors, call payloads and
//! decoding of returned words, all over hex text held as ASCII bytes.

pub mod digits;
pub mod word;
pub mod selector;
pub mod encode;
pub mod decode;
pub mod laws;
