use stix_unpacker::discovery::{digits_only, parse_decimal};
use stix_unpacker::order::{le, lt, same_chars};

fn chars(s: &str) -> Vec<char> {
    s.chars().collect()
}

#[test]
fn name_order_is_code_point_order_with_prefixes_first() {
    assert!(le(&chars("ab"), &chars("abc")));
    assert!(!le(&chars("abc"), &chars("ab")));
    assert!(le(&chars(""), &chars("")));
    assert!(le(&chars("B"), &chars("a")));
    assert!(!le(&chars("a"), &chars("B")));
    assert!(lt(&chars("std"), &chars("stdcv.z")));
    assert!(!lt(&chars("std"), &chars("std")));
    assert!(le(&chars("std"), &chars("std")));
    assert!(lt(&chars("z"), &chars("\u{e9}")));
}

#[test]
fn same_characters() {
    assert!(same_chars(&chars("DISK1"), &chars("DISK1")));
    assert!(!same_chars(&chars("DISK1"), &chars("disk1")));
    assert!(!same_chars(&chars("a"), &chars("ab")));
}

#[test]
fn decimal_digits() {
    assert!(digits_only(&chars("0123")));
    assert!(!digits_only(&chars("")));
    assert!(!digits_only(&chars("1a")));
    assert_eq!(parse_decimal(&chars("0123"), 1000), Some(123));
    assert_eq!(parse_decimal(&chars("1001"), 1000), None);
    assert_eq!(parse_decimal(&chars("18446744073709551615"), u64::MAX), Some(u64::MAX));
    assert_eq!(parse_decimal(&chars("18446744073709551616"), u64::MAX), None);
}
