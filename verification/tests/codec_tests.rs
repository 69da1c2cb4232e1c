use jot::models::StoreError;
use jot::numtext::{i64_to_string, parse_i64, u64_to_string};
use jot::tagcodec::{decode_tags, encode_tags};

fn strings(items: &[&str]) -> Vec<String> {
    items.iter().map(|s| s.to_string()).collect()
}

#[test]
fn test_encode_tags_exact_notation() {
    assert_eq!(encode_tags(&strings(&[])), "[]");
    assert_eq!(encode_tags(&strings(&["a"])), "[\"a\"]");
    assert_eq!(encode_tags(&strings(&["a", "b"])), "[\"a\",\"b\"]");
    assert_eq!(
        encode_tags(&strings(&["qu\"ote", "back\\slash"])),
        "[\"qu\\\"ote\",\"back\\\\slash\"]"
    );
    assert_eq!(encode_tags(&strings(&["line\nbreak"])), "[\"line\\nbreak\"]");
    assert_eq!(encode_tags(&strings(&["tab\there"])), "[\"tab\\there\"]");
    assert_eq!(encode_tags(&strings(&["bell\u{7}"])), "[\"bell\\u0007\"]");
    assert_eq!(encode_tags(&strings(&["back\u{8}space"])), "[\"back\\bspace\"]");
    assert_eq!(encode_tags(&strings(&["form\u{c}feed"])), "[\"form\\ffeed\"]");
}

#[test]
fn test_decode_tags_round_trip() {
    let cases: Vec<Vec<String>> = vec![
        strings(&[]),
        strings(&["work"]),
        strings(&["a", "b", "c"]),
        strings(&["qu\"ote", "back\\slash", "line\nbreak", "bell\u{7}"]),
        strings(&["\u{8}", "\u{c}", "\r", "\t"]),
        strings(&["unicode: \u{e9}\u{4e16}\u{754c}"]),
    ];
    for tags in cases {
        let encoded = encode_tags(&tags);
        assert_eq!(decode_tags(&encoded).unwrap(), tags);
    }
}

#[test]
fn test_decode_tags_rejects_corrupt_values() {
    for bad in [
        "",
        "not json",
        "[",
        "[\"unterminated]",
        "{\"a\":1}",
        "[1,2]",
        "[\"a\",]",
        "[\"a\" \"b\"]",
    ] {
        assert_eq!(decode_tags(bad).unwrap_err(), StoreError::CorruptRecord);
    }
}

#[test]
fn test_decode_tags_accepts_only_canonical_notation() {
    // the store itself always writes compactly; spaced variants are treated
    // as corrupt rather than guessed at
    assert_eq!(
        decode_tags(" [\"a\"] ").unwrap_err(),
        StoreError::CorruptRecord
    );
    assert_eq!(
        decode_tags("[\"a\", \"b\"]").unwrap_err(),
        StoreError::CorruptRecord
    );
    assert_eq!(decode_tags("[\"a\",\"b\"]").unwrap(), strings(&["a", "b"]));
}

#[test]
fn test_decimal_text_round_trip() {
    for n in [
        0i64,
        7,
        -7,
        1735689600123,
        i64::MAX,
        i64::MIN,
    ] {
        let text = i64_to_string(n);
        assert_eq!(parse_i64(&text), Some(n));
    }
    assert_eq!(i64_to_string(-42), "-42");
    assert_eq!(u64_to_string(90210), "90210");
}

#[test]
fn test_parse_i64_rejects_and_bounds() {
    assert_eq!(parse_i64(""), None);
    assert_eq!(parse_i64("-"), None);
    assert_eq!(parse_i64("12x"), None);
    assert_eq!(parse_i64("+12"), Some(12));
    assert_eq!(parse_i64("007"), Some(7));
    assert_eq!(parse_i64("9223372036854775807"), Some(i64::MAX));
    assert_eq!(parse_i64("9223372036854775808"), None);
    assert_eq!(parse_i64("-9223372036854775808"), Some(i64::MIN));
    assert_eq!(parse_i64("-9223372036854775809"), None);
}
