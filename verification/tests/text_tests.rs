use silicon_trust::text::{contains, is_all_ascii_digits, join_strings, push_decimal, push_hex2, spaces_to_underscores, starts_with, trim};

#[test]
fn join_with_separator() {
    let v: Vec<String> = vec!["a".into(), "".into(), "c".into()];
    assert_eq!(join_strings(&v, ":"), "a::c");
    assert_eq!(join_strings(&Vec::new(), ":"), "");
}

#[test]
fn decimal_rendering() {
    for n in [0u64, 7, 10, 255, 8192, 65535, u64::MAX] {
        let mut s = String::from("x");
        push_decimal(&mut s, n);
        assert_eq!(s, format!("x{}", n));
    }
}

#[test]
fn hex_rendering() {
    for b in [0u8, 9, 10, 0x9e, 0xff] {
        let mut s = String::new();
        push_hex2(&mut s, b, true);
        push_hex2(&mut s, b, false);
        assert_eq!(s, format!("{:02X}{:02x}", b, b));
    }
}

#[test]
fn trim_like_std() {
    for t in ["  a b  ", "\u{3000}x\u{2028}", "", "   ", "\t\nz", "y\u{85}", "\u{a0}q"] {
        assert_eq!(trim(t), t.trim());
    }
}

#[test]
fn character_checks() {
    assert!(is_all_ascii_digits("0123"));
    assert!(is_all_ascii_digits(""));
    assert!(!is_all_ascii_digits("01a"));
    assert!(starts_with("VEN_1", "VEN_"));
    assert!(!starts_with("VE", "VEN_"));
    assert!(contains("system memory", "mem"));
    assert!(!contains("me", "mem"));
    assert!(contains("abc", ""));
    assert_eq!(spaces_to_underscores("a b  c"), "a_b__c");
}
