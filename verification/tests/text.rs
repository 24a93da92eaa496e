use dw::text::{join_strings, parse_i32, parse_u32, parse_u64, split_first, string_of, u64_to_decimal};
use dw::types::{is_short_text, Query};

#[test]
fn parses_decimal_numbers() {
    assert_eq!(parse_u32("0"), Some(0));
    assert_eq!(parse_u32("4294967295"), Some(u32::MAX));
    assert_eq!(parse_u32("4294967296"), None);
    assert_eq!(parse_u32(""), None);
    assert_eq!(parse_u32("+7"), Some(7));
    assert_eq!(parse_u32("-7"), None);
    assert_eq!(parse_u32("1a"), None);
    assert_eq!(parse_u64("18446744073709551615"), Some(u64::MAX));
    assert_eq!(parse_i32("-2147483648"), Some(i32::MIN));
    assert_eq!(parse_i32("2147483648"), None);
    assert_eq!(parse_i32("-0"), Some(0));
    assert_eq!(parse_i32("440498"), Some(440498));
}

#[test]
fn writes_decimal_numbers() {
    assert_eq!(u64_to_decimal(0), "0");
    assert_eq!(u64_to_decimal(1234567890), "1234567890");
    assert_eq!(u64_to_decimal(u64::MAX), u64::MAX.to_string());
}

#[test]
fn joins_and_splits() {
    let parts = vec!["a".to_string(), "b".to_string(), "c".to_string()];
    assert_eq!(join_strings(&parts, ", "), "a, b, c");
    assert_eq!(join_strings(&Vec::new(), ", "), "");
    let chars: Vec<char> = "en2zh-CHS".chars().collect();
    let (before, after) = split_first(&chars, '2');
    assert_eq!(string_of(&before), "en");
    assert_eq!(string_of(&after.unwrap()), "zh-CHS");
    let (before, after) = split_first(&chars, '9');
    assert_eq!(string_of(&before), "en2zh-CHS");
    assert!(after.is_none());
}

#[test]
fn short_texts_have_fewer_than_twenty_bytes() {
    assert!(is_short_text("nineteen bytes long"));
    assert!(!is_short_text("twenty bytes long!!!"));
    assert!(!is_short_text("七个汉字七个字"));
    assert!(is_short_text("六个汉字六个"));
    let q = Query::new("hello", "en", "zh", true);
    assert!(q.is_short_text);
    assert_eq!(q.lang_from, "en");
    assert_eq!(q.lang_to, "zh");
    assert!(q.audio);
}
