use dua_checker::seconds::{render_seconds, seconds_to_millis};

/// A fixed sequence of 64-bit numbers of every magnitude.
fn numbers() -> Vec<u64> {
    let mut out = Vec::new();
    let mut x: u64 = 0x9e37_79b9_7f4a_7c15;
    for i in 0..200_000u64 {
        x ^= x << 13;
        x ^= x >> 7;
        x ^= x << 17;
        out.push(x >> (i % 64));
    }
    out
}

#[test]
fn seconds_are_shown_with_two_decimals() {
    assert_eq!(render_seconds(0), "0.00");
    assert_eq!(render_seconds(1), "0.00");
    assert_eq!(render_seconds(2500), "2.50");
    assert_eq!(render_seconds(999), "1.00");
    assert_eq!(render_seconds(125), "0.12");
    assert_eq!(render_seconds(375), "0.38");
    assert_eq!(render_seconds(60_000), "60.00");
    assert_eq!(render_seconds(u64::MAX), "18446744073709552.00");
}

#[test]
fn shown_seconds_agree_with_floating_point() {
    for ms in (0..100_000u64).chain(numbers()) {
        assert_eq!(render_seconds(ms), format!("{:.2}", ms as f64 / 1000.0), "{ms}");
    }
}

#[test]
fn seconds_become_whole_milliseconds() {
    let millis = |s: f64| seconds_to_millis(s.to_bits());
    assert_eq!(millis(2.5), 2500);
    assert_eq!(millis(0.0), 0);
    assert_eq!(millis(-0.0), 0);
    assert_eq!(millis(-3.0), 0);
    assert_eq!(millis(0.0019), 1);
    assert_eq!(millis(0.0009), 0);
    assert_eq!(millis(65.0), 65_000);
    assert_eq!(millis(0.29), 290);
    assert_eq!(millis(f64::NAN), 0);
    assert_eq!(millis(-f64::NAN), 0);
    assert_eq!(millis(f64::INFINITY), u64::MAX);
    assert_eq!(millis(f64::NEG_INFINITY), 0);
    assert_eq!(millis(f64::MAX), u64::MAX);
    assert_eq!(millis(1e300), u64::MAX);
    assert_eq!(millis(5e-324), 0);
}

#[test]
fn milliseconds_agree_with_floating_point() {
    let check = |s: f64| {
        let expected = (s.max(0.0) * 1000.0) as u64;
        assert_eq!(seconds_to_millis(s.to_bits()), expected, "{s}");
    };
    for n in numbers() {
        check(f64::from_bits(n));
        check(n as f64 / 1000.0);
        check(n as f64 / 1e7);
        check(n as f64);
    }
}
