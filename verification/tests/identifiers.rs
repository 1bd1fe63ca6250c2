//! Identifiers, errors, checksums and text.

use undr9::common::{crc32, validate_identifier, EdgeId, NodeId, TransactionId, Undr9Error};
use undr9::text::{
    blank, decimal_text, hexadecimal_text, parse_unsigned, precedes, split, split_once,
    strip_suffix_or_all, to_lower, trim,
};

#[test]
fn rejects_invalid_identifier_characters() {
    let error = NodeId::new("bad id").expect_err("identifier should be rejected");
    assert!(error.to_string().contains("may only contain"));
}

#[test]
fn creates_strongly_typed_ids() {
    let node_id = NodeId::new("node_1").expect("node id should be valid");
    let edge_id = EdgeId::new("edge:1").expect("edge id should be valid");
    let transaction_id = TransactionId::new("tx_1").expect("transaction id should be valid");

    assert_eq!(node_id.as_str(), "node_1");
    assert_eq!(edge_id.as_str(), "edge:1");
    assert_eq!(transaction_id.as_str(), "tx_1");
}

#[test]
fn computes_stable_crc32_checksums() {
    assert_eq!(crc32(b"undr9"), 557574162);
}

#[test]
fn checksums_differ_between_payloads() {
    assert_eq!(crc32(b""), 0);
    assert_ne!(crc32(b"undr9"), crc32(b"undr8"));
}

#[test]
fn identifiers_are_checked_for_blanks_before_characters() {
    let error = NodeId::new("   ").expect_err("a blank identifier is rejected");
    assert_eq!(error.to_string(), "validation error: node identifier cannot be empty");
    assert!(validate_identifier("node", "a-b_c:9").is_ok());
    assert!(validate_identifier("node", "a/b").is_err());
    assert!(validate_identifier("node", "h\u{e9}").is_err());
}

#[test]
fn stored_identifiers_are_taken_as_they_are() {
    assert_eq!(NodeId::from_stored("bad id".to_owned()).as_str(), "bad id");
    assert_eq!(EdgeId::from_stored("e e".to_owned()).as_str(), "e e");
    assert_eq!(TransactionId::from_stored("".to_owned()).as_str(), "");
}

#[test]
fn errors_name_their_kind() {
    let text = || "it broke".to_owned();
    assert_eq!(Undr9Error::Validation(text()).to_string(), "validation error: it broke");
    assert_eq!(Undr9Error::Conflict(text()).to_string(), "conflict detected: it broke");
    assert_eq!(Undr9Error::Io(text()).to_string(), "io error: it broke");
    assert_eq!(Undr9Error::Serialization(text()).to_string(), "serialization error: it broke");
    assert_eq!(Undr9Error::NotFound(text()).to_string(), "not found: it broke");
    assert_eq!(Undr9Error::Corruption(text()).to_string(), "corruption detected: it broke");
}

#[test]
fn text_is_ordered_by_its_characters() {
    assert!(precedes("a", "b"));
    assert!(precedes("a", "aa"));
    assert!(!precedes("aa", "a"));
    assert!(!precedes("a", "a"));
    assert!(precedes("Z", "a"));
}

#[test]
fn text_is_trimmed_and_lowered() {
    assert_eq!(trim("  a b \t\n"), "a b");
    assert_eq!(trim("\u{a0}x\u{3000}"), "x");
    assert!(blank(" \t "));
    assert!(!blank(" . "));
    assert_eq!(to_lower("HTTP/Protobuf"), "http/protobuf");
}

#[test]
fn text_is_split() {
    assert_eq!(split("a,,b", ','), vec!["a", "", "b"]);
    assert_eq!(split("", ','), vec![""]);
    assert_eq!(split_once("a=b=c", '='), Some(("a".to_owned(), "b=c".to_owned())));
    assert_eq!(split_once("abc", '='), None);
    assert_eq!(strip_suffix_or_all("x.bin", ".bin"), "x");
    assert_eq!(strip_suffix_or_all("x.txt", ".bin"), "x.txt");
}

#[test]
fn numbers_are_written_and_read() {
    assert_eq!(decimal_text(0), "0");
    assert_eq!(decimal_text(u128::MAX), u128::MAX.to_string());
    assert_eq!(hexadecimal_text(255, 4), "00ff");
    assert_eq!(hexadecimal_text(0x12345, 4), "12345");
    assert_eq!(parse_unsigned("0042", 100), Some(42));
    assert_eq!(parse_unsigned("+7", 100), Some(7));
    assert_eq!(parse_unsigned("101", 100), None);
    assert_eq!(parse_unsigned("18446744073709551615", u64::MAX), Some(u64::MAX));
    assert_eq!(parse_unsigned("18446744073709551616", u64::MAX), None);
    assert_eq!(parse_unsigned("", 100), None);
    assert_eq!(parse_unsigned("-1", 100), None);
    assert_eq!(parse_unsigned("1 ", 100), None);
}

#[test]
fn checksums_are_remainders_by_the_polynomial() {
    let remainder = |bytes: &[u8]| {
        let mut state: u32 = 0xffff_ffff;
        for byte in bytes {
            state ^= u32::from(*byte);
            for _ in 0..8 {
                state = if state & 1 == 1 { (state >> 1) ^ 0xedb8_8320 } else { state >> 1 };
            }
        }
        state ^ 0xffff_ffff
    };
    assert_eq!(crc32(b"123456789"), 0xcbf4_3926);
    let long: Vec<u8> = (0..1_000_u32).map(|i| (i * 31 % 251) as u8).collect();
    for length in [1, 3, 4, 8, 15, 16, 63, 64, 65, 127, 128, 500, 1_000] {
        assert_eq!(crc32(&long[..length]), remainder(&long[..length]));
    }
}
