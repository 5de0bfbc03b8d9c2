use contract_abi::decode::{decode_address, decode_string, decode_string_array, decode_uint, DecodeError};
use contract_abi::encode::{contains_bytes, encode_call, EncodeError};
use contract_abi::selector::{selector, selector_hex};
use contract_abi::word::{hex_len, pad_left_zero, pad_right_zero_to_word_boundary, word_for};

fn word(digits: &str) -> String {
    format!("{:0>64}", digits)
}

fn text(bytes: Vec<u8>) -> String {
    String::from_utf8(bytes).unwrap()
}

fn args(items: &[&str]) -> Vec<String> {
    items.iter().map(|s| s.to_string()).collect()
}

#[test]
fn selector_of_name() {
    assert_eq!(selector("name()"), [0x06, 0xfd, 0xde, 0x03]);
    assert_eq!(text(selector_hex("name()")), "06fdde03");
}

#[test]
fn selector_of_erc20_functions() {
    assert_eq!(text(selector_hex("balanceOf(address)")), "70a08231");
    assert_eq!(text(selector_hex("symbol()")), "95d89b41");
    assert_eq!(text(selector_hex("decimals()")), "313ce567");
    assert_eq!(text(selector_hex("totalSupply()")), "18160ddd");
}

#[test]
fn selector_is_deterministic() {
    let sig = "getStudentCount(string)";
    assert_eq!(selector(sig), selector(sig));
    assert_ne!(selector("name()"), selector("name( )"));
}

#[test]
fn selector_matches_keccak() {
    let digest = keccak_hash::keccak("getStudentsBySubject(string,uint256,uint256)".as_bytes());
    let sel = selector("getStudentsBySubject(string,uint256,uint256)");
    assert_eq!(&sel[..], &digest.as_bytes()[0..4]);
}

#[test]
fn encode_name_call_has_no_arguments() {
    let payload = encode_call("name()", vec![]).unwrap();
    assert_eq!(text(payload), "0x06fdde03");
}

#[test]
fn encode_balance_of_pads_address() {
    let address = "1c7D4B196Cb0C7B01d743Fbc6116a902379C7238";
    let payload = encode_call("balanceOf(address)", vec![word(address)]).unwrap();
    let expected = format!("0x70a08231{}", word(address));
    assert_eq!(text(payload.clone()), expected);
    assert_eq!(payload.len(), 2 + 8 + 64);
}

#[test]
fn encode_short_static_argument_is_padded() {
    let payload = encode_call("ownerOf(uint256)", args(&["1"])).unwrap();
    let sel = text(selector_hex("ownerOf(uint256)"));
    assert_eq!(text(payload), format!("0x{}{}", sel, word("1")));
}

#[test]
fn encode_hex_prefixed_argument_is_verbatim() {
    let arg = format!("0x{}", word("ab"));
    let payload = encode_call("tokenURI(uint256)", vec![arg]).unwrap();
    let sel = text(selector_hex("tokenURI(uint256)"));
    assert_eq!(text(payload), format!("0x{}{}", sel, word("ab")));
}

#[test]
fn encode_two_static_arguments_in_order() {
    let payload = encode_call("f(uint256,uint256)", args(&["2", "3"])).unwrap();
    let sel = text(selector_hex("f(uint256,uint256)"));
    assert_eq!(text(payload), format!("0x{}{}{}", sel, word("2"), word("3")));
}

#[test]
fn encode_students_by_subject() {
    let sig = "getStudentsBySubject(string,uint256,uint256)";
    let payload = encode_call(sig, args(&["Mathematics", "0", "10"])).unwrap();
    let sel = hex::encode(&keccak_hash::keccak(sig.as_bytes()).as_bytes()[0..4]);
    let data = format!("{:0<64}", hex::encode("Mathematics"));
    let expected = format!("0x{}{}{}{}{}{}", sel, word("60"), word("0"), word("10"), word("b"), data);
    assert_eq!(text(payload), expected);
}

#[test]
fn encode_single_string_argument() {
    let payload = encode_call("getStudentCount(string)", args(&["Mathematics"])).unwrap();
    let sel = text(selector_hex("getStudentCount(string)"));
    let data = format!("{:0<64}", "4d617468656d6174696373");
    let expected = format!("0x{}{}{}{}", sel, word("20"), word("b"), data);
    assert_eq!(text(payload), expected);
}

#[test]
fn encode_string_spanning_two_words() {
    let subject = "abcdefghijklmnopqrstuvwxyz0123456789ABCD";
    let payload = text(encode_call("f(string)", args(&[subject])).unwrap());
    assert_eq!(payload.len(), 10 + 64 * 4);
    assert!(payload.ends_with(&format!("{:0<128}", hex::encode(subject))));
    assert_eq!(&payload[74..138], word("28"));
}

#[test]
fn encode_empty_string_argument() {
    let payload = text(encode_call("f(string)", args(&[""])).unwrap());
    let sel = text(selector_hex("f(string)"));
    assert_eq!(payload, format!("0x{}{}{}", sel, word("20"), word("0")));
}

#[test]
fn encode_missing_arguments() {
    assert_eq!(encode_call("f(string)", vec![]), Err(EncodeError::MissingArgument));
    assert_eq!(
        encode_call("g(string,uint256,uint256)", args(&["x", "1"])),
        Err(EncodeError::MissingArgument)
    );
}

#[test]
fn encode_static_argument_too_long() {
    let long = "1".repeat(65);
    assert_eq!(encode_call("f(uint256)", vec![long.clone()]), Err(EncodeError::ArgumentTooLong));
    assert_eq!(
        encode_call("g(string,uint256,uint256)", vec!["x".to_string(), "0".to_string(), long]),
        Err(EncodeError::ArgumentTooLong)
    );
    let exact = "1".repeat(64);
    assert!(encode_call("f(uint256)", vec![exact]).is_ok());
}

#[test]
fn contains_finds_patterns() {
    assert!(contains_bytes(b"f(string)", b"string"));
    assert!(!contains_bytes(b"f(uint256)", b"string"));
    assert!(contains_bytes(b"abc", b""));
    assert!(!contains_bytes(b"ab", b"abc"));
    assert!(contains_bytes(b"abc", b"abc"));
}

#[test]
fn word_padding() {
    assert_eq!(text(pad_left_zero(b"1")), word("1"));
    assert_eq!(pad_left_zero(b"").len(), 64);
    assert_eq!(text(pad_right_zero_to_word_boundary(b"61")), format!("{:0<64}", "61"));
    assert_eq!(pad_right_zero_to_word_boundary(b"").len(), 0);
    assert_eq!(pad_right_zero_to_word_boundary(&[b'1'; 64]).len(), 64);
    assert_eq!(pad_right_zero_to_word_boundary(&[b'1'; 65]).len(), 128);
}

#[test]
fn hex_lengths() {
    assert_eq!(text(hex_len(0)), "0");
    assert_eq!(text(hex_len(11)), "b");
    assert_eq!(text(hex_len(96)), "60");
    assert_eq!(text(hex_len(u64::MAX)), "ffffffffffffffff");
    assert_eq!(text(word_for(32)), word("20"));
}

#[test]
fn decode_uint_values() {
    assert_eq!(decode_uint(&format!("0x{}", word("12"))), 18);
    assert_eq!(decode_uint(&word("0")), 0);
    assert_eq!(decode_uint("0xFF"), 255);
    assert_eq!(decode_uint("0x"), 0);
    assert_eq!(decode_uint("0xzz"), 0);
    assert_eq!(decode_uint(&format!("0x{}", word("10000000000000000"))), 0);
}

#[test]
fn decode_uint_round_trip() {
    for n in [0u64, 1, u64::MAX] {
        let w = text(word_for(n));
        assert_eq!(decode_uint(&w), n);
        assert_eq!(decode_uint(&format!("0x{}", w)), n);
    }
}

#[test]
fn decode_address_from_word() {
    let address = "1238536071e1c677a632429e3655c799b22cda52";
    let data = format!("0x{}", word(address));
    assert_eq!(decode_address(&data), Ok(format!("0x{}", address)));
    let high = format!("ffffffffffffffffffffffff{}", address);
    assert_eq!(decode_address(&high), Ok(format!("0x{}", address)));
}

#[test]
fn decode_address_errors() {
    assert_eq!(decode_address("0x1234"), Err(DecodeError::Truncated));
    let bad = format!("{}{}", "0".repeat(24), "g".repeat(40));
    assert_eq!(decode_address(&bad), Err(DecodeError::InvalidHex));
}

#[test]
fn decode_string_round_trip() {
    for subject in ["hello", "", "Mathematics", "a string that is longer than thirty-two bytes, spanning words"] {
        let payload = text(encode_call("f(string)", args(&[subject])).unwrap());
        let block = &payload[10..];
        assert_eq!(decode_string(block), Ok(subject.to_string()));
        assert_eq!(decode_string(&format!("0x{}", block)), Ok(subject.to_string()));
    }
}

#[test]
fn decode_string_short_input() {
    assert_eq!(decode_string(""), Err(DecodeError::Truncated));
    assert_eq!(decode_string("0x"), Err(DecodeError::Truncated));
    assert_eq!(decode_string(&format!("0x{}", "0".repeat(127))), Err(DecodeError::Truncated));
    assert_eq!(DecodeError::Truncated.message(), "Invalid data");
}

#[test]
fn decode_string_errors() {
    let bad_utf8 = format!("{}{}{}", word("20"), word("1"), format!("{:0<64}", "ff"));
    assert_eq!(decode_string(&bad_utf8), Err(DecodeError::InvalidUtf8));
    assert_eq!(DecodeError::InvalidUtf8.message(), "Invalid UTF-8");
    let far_offset = format!("{}{}", word("100"), word("1"));
    assert_eq!(decode_string(&far_offset), Err(DecodeError::Truncated));
    let too_long = format!("{}{}{}", word("20"), word("40"), word("61"));
    assert_eq!(decode_string(&too_long), Err(DecodeError::Truncated));
    let not_hex = format!("{}{}", "z".repeat(64), word("1"));
    assert_eq!(decode_string(&not_hex), Err(DecodeError::InvalidHex));
}

#[test]
fn decode_string_array_of_three() {
    let data = format!(
        "0x{}{}{}{}{}{}{}{}{}{}{}",
        word("20"),
        word("3"),
        word("60"),
        word("a0"),
        word("e0"),
        word("1"),
        format!("{:0<64}", "61"),
        word("2"),
        format!("{:0<64}", "6262"),
        word("3"),
        format!("{:0<64}", "636363")
    );
    assert_eq!(decode_string_array(&data), Ok(args(&["a", "bb", "ccc"])));
}

#[test]
fn decode_string_array_empty() {
    let data = format!("0x{}{}", word("20"), word("0"));
    assert_eq!(decode_string_array(&data), Ok(Vec::new()));
}

#[test]
fn decode_string_array_errors() {
    assert_eq!(decode_string_array("0xabc"), Err(DecodeError::InvalidHex));
    assert_eq!(decode_string_array("0xzz"), Err(DecodeError::InvalidHex));
    assert_eq!(decode_string_array("0x"), Err(DecodeError::InvalidLayout));
    let data = format!("0x{}{}", word("20"), word("5"));
    assert_eq!(decode_string_array(&data), Err(DecodeError::InvalidLayout));
}

#[test]
fn decode_string_array_rejects_invalid_utf8() {
    let data = format!(
        "0x{}{}{}{}{}",
        word("20"),
        word("1"),
        word("20"),
        word("1"),
        format!("{:0<64}", "ff")
    );
    assert_eq!(decode_string_array(&data), Err(DecodeError::InvalidUtf8));
}

#[test]
fn encode_hex_prefixed_argument_too_long() {
    let arg = format!("0x{}", "1".repeat(65));
    assert_eq!(encode_call("f(uint256)", vec![arg]), Err(EncodeError::ArgumentTooLong));
    let exact = format!("0x{}", "1".repeat(64));
    assert!(encode_call("f(uint256)", vec![exact]).is_ok());
}
