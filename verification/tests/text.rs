use dua_checker::interval::Interval;
use dua_checker::text::{decimal_text, is_whitespace, join, joined, parse_number, same_text, trim};

#[test]
fn whitespace_is_that_of_unicode() {
    for n in 0..=0x10ffffu32 {
        if let Some(c) = char::from_u32(n) {
            assert_eq!(is_whitespace(c), c.is_whitespace(), "{n:x}");
        }
    }
}

#[test]
fn trimming_removes_outer_whitespace() {
    for s in ["", " ", "a", " a", "a ", "\t a b\u{3000}\n", "\u{a0}x\u{85}", "ä ö"] {
        assert_eq!(trim(s), s.trim());
    }
}

#[test]
fn decimals_read_like_numbers() {
    for n in [0u64, 7, 9, 10, 99, 100, 12_345, 1_679_616, u64::MAX] {
        assert_eq!(decimal_text(n), n.to_string());
        assert_eq!(parse_number(&decimal_text(n), u64::MAX), Some(n));
    }
}

#[test]
fn numbers_parse_as_the_standard_library_parses_them() {
    for s in [
        "", "+", "-", "0", "+0", "-0", "007", "12", "+12", "1 2", "1_2", "a", "1a", "++1",
        "18446744073709551615", "18446744073709551616", "99999999999999999999999", "٣", "0x10",
    ] {
        assert_eq!(parse_number(s, u64::MAX), s.parse::<u64>().ok(), "{s}");
    }
    assert_eq!(parse_number("255", 255), Some(255));
    assert_eq!(parse_number("256", 255), None);
}

#[test]
fn texts_join() {
    assert_eq!(joined(&[]), "");
    assert_eq!(joined(&["a", "", "bc"]), "abc");
    assert_eq!(join(&vec![], "; "), "");
    assert_eq!(join(&vec!["a".to_string()], "; "), "a");
    assert_eq!(join(&vec!["a".to_string(), "b".to_string()], "; "), "a; b");
    assert!(same_text("aé", "aé"));
    assert!(!same_text("ab", "a"));
    assert!(!same_text("ab", "ac"));
}

#[test]
fn intervals_measure_nanoseconds() {
    assert_eq!(Interval::from_millis(1500).as_nanos(), 1_500_000_000);
    assert_eq!(Interval::from_secs(2).as_millis(), 2000);
    assert_eq!(Interval::from_nanos(1_999_999).as_millis(), 1);
    assert_eq!(
        Interval::from_nanos(u128::MAX).as_nanos(),
        std::time::Duration::MAX.as_nanos()
    );
    assert!(Interval::from_millis(1000).at_most(&Interval::from_secs(1)));
    assert!(!Interval::from_millis(1001).at_most(&Interval::from_secs(1)));
}
