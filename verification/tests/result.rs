use dua_checker::clock::timestamp;
use dua_checker::{CheckResult, Status};

#[test]
fn formats_available() {
    let r = CheckResult::new("alice", Status::Available);
    assert_eq!(r.format_line(), "[+] alice: AVAILABLE");
    assert_eq!(r.format_file_line(), "alice - AVAILABLE");
}

#[test]
fn formats_invalid_with_reason() {
    let r = CheckResult::new(
        "x",
        Status::Invalid {
            reason: "too short".into(),
        },
    );
    assert_eq!(r.format_line(), "[!] x: invalid (too short)");
    assert_eq!(r.format_file_line(), "x - INVALID: too short");
}

#[test]
fn formats_rate_limited() {
    let r = CheckResult::new(
        "bob",
        Status::RateLimited {
            retry_after_ms: Some(2500),
        },
    );
    assert!(r.format_line().contains("rate limited"));
    assert!(r.format_file_line().contains("RATE_LIMITED"));
}

#[test]
fn formats_every_other_outcome() {
    let taken = CheckResult::new("bob", Status::Taken);
    assert_eq!(taken.format_line(), "[-] bob: taken");
    assert_eq!(taken.format_file_line(), "bob - TAKEN");
    let limited = CheckResult::new("bob", Status::RateLimited { retry_after_ms: Some(2500) });
    assert_eq!(limited.format_line(), "[?] bob: rate limited (retry after 2.50s)");
    assert_eq!(limited.format_file_line(), "bob - RATE_LIMITED: retry after 2.50s");
    let unknown = CheckResult::new("bob", Status::RateLimited { retry_after_ms: None });
    assert_eq!(unknown.format_line(), "[?] bob: rate limited");
    assert_eq!(unknown.format_file_line(), "bob - RATE_LIMITED");
    let failed = CheckResult::new("bob", Status::Error { reason: "HTTP 500".into() });
    assert_eq!(failed.format_line(), "[?] bob: error (HTTP 500)");
    assert_eq!(failed.format_file_line(), "bob - ERROR: HTTP 500");
}

#[test]
fn log_lines_read_as_documented() {
    let r = CheckResult::new(
        "charlie",
        Status::Invalid {
            reason: "username: Username must be between 2 and 32 in length.".into(),
        },
    );
    assert_eq!(
        r.format_line(),
        "[!] charlie: invalid (username: Username must be between 2 and 32 in length.)"
    );
    assert_eq!(
        r.format_file_line(),
        "charlie - INVALID: username: Username must be between 2 and 32 in length."
    );
}

#[test]
fn outcomes_tell_what_they_are() {
    let invalid = Status::Invalid { reason: "short".into() };
    let error = Status::Error { reason: "lost".into() };
    let limited = Status::RateLimited { retry_after_ms: Some(1500) };
    assert_eq!(Status::Available.token(), "AVAILABLE");
    assert_eq!(Status::Taken.token(), "TAKEN");
    assert_eq!(invalid.token(), "INVALID");
    assert_eq!(limited.token(), "RATE_LIMITED");
    assert_eq!(error.token(), "ERROR");
    assert_eq!(invalid.reason(), Some("short"));
    assert_eq!(error.reason(), Some("lost"));
    assert_eq!(limited.reason(), None);
    assert_eq!(Status::Taken.reason(), None);
    assert_eq!(limited.retry_after().map(|d| d.as_millis()), Some(1500));
    assert_eq!(Status::RateLimited { retry_after_ms: None }.retry_after(), None);
    assert_eq!(Status::Available.retry_after(), None);
    assert!(Status::Available.is_available());
    assert!(!Status::Taken.is_available());
    assert!(error.is_terminal_failure());
    assert!(!invalid.is_terminal_failure());
}

#[test]
fn results_carry_the_time_of_the_check() {
    let now = CheckResult::new("alice", Status::Taken);
    assert!(now.checked_at > 1_600_000_000);
    assert!(now.checked_at < 100_000_000_000);
    let then = CheckResult::at("alice", Status::Taken, 12);
    assert_eq!(then.checked_at, 12);
    assert_eq!(then.username, "alice");
    assert_eq!(timestamp(Some(5)), 5);
    assert_eq!(timestamp(None), 0);
}

#[test]
fn clones_are_equal() {
    for status in [
        Status::Available,
        Status::Taken,
        Status::Invalid { reason: "a".into() },
        Status::RateLimited { retry_after_ms: Some(7) },
        Status::Error { reason: "b".into() },
    ] {
        let r = CheckResult::at("x", status, 9);
        assert_eq!(r.clone(), r);
    }
}
