use dua_checker::checker::{
    clip, extract_error_reason, interpret_document, interpret_response, parse_retry_after,
    Attempt, Step,
};
use dua_checker::interval::Interval;
use dua_checker::json::{parse_json, Json};
use dua_checker::pacing::{Pacer, Turn};
use dua_checker::{CheckResult, Checker, CheckerConfig, Status};

fn text(s: &str) -> Json {
    Json::Str(s.to_string())
}

fn number(whole: Option<u64>, value: f64) -> Json {
    Json::Number { whole, bits: Some(value.to_bits()) }
}

fn object(members: Vec<(&str, Json)>) -> Json {
    Json::Object(members.into_iter().map(|(k, v)| (k.to_string(), v)).collect())
}

#[test]
fn extracts_field_error() {
    let json = object(vec![(
        "errors",
        object(vec![(
            "username",
            object(vec![(
                "_errors",
                Json::Array(vec![object(vec![
                    ("code", text("USERNAME_TOO_SHORT")),
                    ("message", text("Must be 2-32 chars.")),
                ])]),
            )]),
        )]),
    )]);
    let reason = extract_error_reason(&json).unwrap();
    assert!(reason.contains("username"));
    assert!(reason.contains("Must be 2-32 chars."));
    assert_eq!(reason, "username: Must be 2-32 chars.");
}

#[test]
fn extracts_top_level_message() {
    let json = object(vec![("message", text("You are being rate limited"))]);
    let reason = extract_error_reason(&json).unwrap();
    assert_eq!(reason, "You are being rate limited");
}

#[test]
fn clip_truncates() {
    assert_eq!(clip("abcdef", 3), "abc…");
    assert_eq!(clip("abc", 10), "abc");
}

#[test]
fn clip_counts_characters() {
    assert_eq!(clip("äöü", 3), "äöü");
    assert_eq!(clip("äöü", 2), "äö…");
    assert_eq!(clip("x", 0), "…");
    assert_eq!(clip("", 0), "");
}

#[test]
fn error_messages_join_in_document_order() {
    let body = r#"{"errors": {
        "zeta": {"_errors": [{"message": "z1"}, {"message": null}, {"code": 3}, "loose"]},
        "alpha": {"_errors": [{"message": "a1"}, ["a2"], ["x", "y"], {"message": 7}, []]},
        "none": {"other": []}
    }, "message": "top"}"#;
    let json = parse_json(body).unwrap();
    assert_eq!(
        extract_error_reason(&json).unwrap(),
        "alpha: a1; alpha: a2; zeta: z1"
    );
}

#[test]
fn documents_without_a_reason() {
    for body in ["[]", "3", "\"message\"", "null", "true", "{}", "{\"message\": 4}"] {
        assert_eq!(extract_error_reason(&parse_json(body).unwrap()), None, "{body}");
    }
    let empty = parse_json(r#"{"errors": {"f": {"_errors": []}}, "message": "top"}"#).unwrap();
    assert_eq!(extract_error_reason(&empty), Some("top".to_string()));
    let no_map = parse_json(r#"{"errors": ["f"], "message": "top"}"#).unwrap();
    assert_eq!(extract_error_reason(&no_map), Some("top".to_string()));
}

#[test]
fn documents_are_taken_apart() {
    assert_eq!(parse_json("{not json"), None);
    assert_eq!(parse_json(""), None);
    assert_eq!(
        parse_json(r#" {"b": [1.5, null, true], "a": "x", "b": [2]} "#),
        Some(object(vec![
            ("a", text("x")),
            ("b", Json::Array(vec![number(Some(2), 2.0)])),
        ]))
    );
    assert_eq!(
        parse_json("[-3, 0.25]"),
        Some(Json::Array(vec![
            number(None, -3.0),
            number(None, 0.25),
        ]))
    );
    let json = parse_json(r#"{"k": false}"#).unwrap();
    assert_eq!(json.get("k"), Some(&Json::Bool(false)));
    assert_eq!(json.get("j"), None);
    assert_eq!(Json::Null.get("k"), None);
}

#[test]
fn ok_responses_answer_the_question() {
    let status = |body: &str| interpret_response("alice", 200, body).status;
    assert_eq!(status(r#"{"taken": false}"#), Status::Available);
    assert_eq!(status(r#"{"taken": true, "x": 1}"#), Status::Taken);
    assert_eq!(
        status(r#"{"taken": "no"}"#),
        Status::Error {
            reason: r#"HTTP 200, unexpected body: {"taken": "no"}"#.to_string()
        }
    );
    assert_eq!(
        status("oops"),
        Status::Error {
            reason: "HTTP 200, unexpected body: oops".to_string()
        }
    );
    let long = "x".repeat(300);
    assert_eq!(
        status(&long),
        Status::Error {
            reason: format!("HTTP 200, unexpected body: {}…", "x".repeat(200))
        }
    );
    assert_eq!(interpret_response("alice", 200, "{}").username, "alice");
}

#[test]
fn rejected_names_are_invalid() {
    let body = r#"{"message": "Invalid Form Body", "errors": {"username": {"_errors": [
        {"code": "BASE_TYPE_BAD_LENGTH", "message": "Must be between 2 and 32 in length."}]}}}"#;
    let reason = "username: Must be between 2 and 32 in length.".to_string();
    for code in [400u16, 422] {
        assert_eq!(
            interpret_response("a", code, body).status,
            Status::Invalid { reason: reason.clone() }
        );
    }
    assert_eq!(
        interpret_response("a", 400, "<html>").status,
        Status::Invalid { reason: "HTTP 400".to_string() }
    );
}

#[test]
fn other_codes_are_errors() {
    for code in [0u16, 201, 401, 403, 404, 500, 503, 65535] {
        assert_eq!(
            interpret_response("a", code, "").status,
            Status::Error { reason: format!("HTTP {code}") }
        );
    }
    assert_eq!(
        interpret_response("a", 503, r#"{"message": "down"}"#).status,
        Status::Error { reason: "down".to_string() }
    );
}

#[test]
fn rate_limits_carry_the_wait_of_the_body() {
    let status = |body: &str| interpret_response("a", 429, body).status;
    assert_eq!(
        status(r#"{"retry_after": 1.25}"#),
        Status::RateLimited { retry_after_ms: Some(1250) }
    );
    assert_eq!(
        status(r#"{"retry_after": 3}"#),
        Status::RateLimited { retry_after_ms: Some(3000) }
    );
    assert_eq!(
        status(r#"{"retry_after": -3}"#),
        Status::RateLimited { retry_after_ms: Some(0) }
    );
    assert_eq!(
        status(r#"{"retry_after": "3"}"#),
        Status::RateLimited { retry_after_ms: None }
    );
    assert_eq!(status("x"), Status::RateLimited { retry_after_ms: None });
}

#[test]
fn documents_decide_like_bodies() {
    let yes = Some(object(vec![("taken", Json::Bool(true))]));
    assert_eq!(interpret_document(200, "ignored", &yes), Status::Taken);
    assert_eq!(
        interpret_document(200, "shown", &None),
        Status::Error { reason: "HTTP 200, unexpected body: shown".to_string() }
    );
    assert_eq!(
        interpret_document(404, "", &yes),
        Status::Error { reason: "HTTP 404".to_string() }
    );
}

fn attempt(username: &str, retried: bool) -> Attempt {
    Attempt { username: username.to_string(), retried }
}

fn done(step: Step) -> CheckResult {
    match step {
        Step::Done(result) => result,
        other => panic!("not done: {other:?}"),
    }
}

#[test]
fn default_configuration() {
    let config = CheckerConfig::default();
    assert_eq!(config.workers, 8);
    assert_eq!(config.delay, Interval::from_millis(0));
    assert_eq!(config.timeout, Interval::from_secs(10));
    assert_eq!(config.max_auto_retry_after, Interval::from_secs(10));
    let checker = Checker::new(config.clone());
    assert_eq!(checker.config().workers, 8);
    assert_eq!(checker.config().timeout, config.timeout);
}

#[test]
fn names_are_trimmed_before_they_are_sent() {
    let checker = Checker::new(CheckerConfig::default());
    assert_eq!(checker.check("  alice\t"), Step::Send(attempt("alice", false)));
    let result = done(checker.check(" \n"));
    assert_eq!(result.username, "");
    assert_eq!(result.status, Status::Invalid { reason: "empty username".to_string() });
}

#[test]
fn short_rate_limits_are_retried_once() {
    let checker = Checker::new(CheckerConfig::default());
    let wait = Interval::from_secs(10);
    assert_eq!(
        checker.on_response(attempt("bob", false), 429, Some(wait)),
        Step::WaitThenSend(wait, attempt("bob", true))
    );
    let again = done(checker.on_response(attempt("bob", true), 429, Some(wait)));
    assert_eq!(again.username, "bob");
    assert_eq!(again.status, Status::RateLimited { retry_after_ms: Some(10_000) });
}

#[test]
fn long_rate_limits_surface() {
    let checker = Checker::new(CheckerConfig::default());
    let long = Interval::from_millis(10_001);
    assert_eq!(
        done(checker.on_response(attempt("bob", false), 429, Some(long))).status,
        Status::RateLimited { retry_after_ms: Some(10_001) }
    );
}

#[test]
fn hints_reach_the_result() {
    let checker = Checker::new(CheckerConfig::default());
    for retried in [false, true] {
        assert_eq!(
            checker.on_response(attempt("bob", retried), 429, None),
            Step::ReadBody(attempt("bob", retried))
        );
    }
    let limited = checker.on_body(&attempt("bob", false), 429, r#"{"retry_after": 30.0}"#);
    assert_eq!(limited.username, "bob");
    assert_eq!(limited.status, Status::RateLimited { retry_after_ms: Some(30_000) });
    let silent = checker.on_body(&attempt("bob", true), 429, "slow down");
    assert_eq!(silent.status, Status::RateLimited { retry_after_ms: None });
    let header = parse_retry_after(Some(65f64.to_bits()));
    assert_eq!(
        done(checker.on_response(attempt("bob", false), 429, header)).status,
        Status::RateLimited { retry_after_ms: Some(65_000) }
    );
}

#[test]
fn other_responses_have_their_body_read() {
    let checker = Checker::new(CheckerConfig::default());
    for code in [200u16, 400, 422, 500] {
        assert_eq!(
            checker.on_response(attempt("bob", false), code, Some(Interval::from_secs(1))),
            Step::ReadBody(attempt("bob", false))
        );
    }
    let result = checker.on_body(&attempt("bob", true), 200, r#"{"taken":true}"#);
    assert_eq!(result.username, "bob");
    assert_eq!(result.status, Status::Taken);
    let failed = checker.on_failure(&attempt("bob", false), "timed out");
    assert_eq!(failed.username, "bob");
    assert_eq!(
        failed.status,
        Status::Error { reason: "network error: timed out".to_string() }
    );
}

#[test]
fn unreadable_bodies_keep_rate_limits() {
    let checker = Checker::new(CheckerConfig::default());
    for retried in [false, true] {
        let limited = checker.on_unreadable_body(&attempt("bob", retried), 429, "reset");
        assert_eq!(limited.username, "bob");
        assert_eq!(limited.status, Status::RateLimited { retry_after_ms: None });
    }
    for code in [200u16, 400, 503] {
        let failed = checker.on_unreadable_body(&attempt("bob", false), code, "reset");
        assert_eq!(failed.username, "bob");
        assert_eq!(
            failed.status,
            Status::Error { reason: "network error: reset".to_string() }
        );
    }
}

#[test]
fn retry_after_headers_become_waits() {
    assert_eq!(
        parse_retry_after(Some(1.5f64.to_bits())),
        Some(Interval::from_millis(1500))
    );
    assert_eq!(parse_retry_after(Some((-2f64).to_bits())), Some(Interval::from_millis(0)));
    assert_eq!(parse_retry_after(None), None);
}

#[test]
fn batches_return_results_in_input_order() {
    let names: Vec<String> = ["a", "b", "c", "d"].iter().map(|s| s.to_string()).collect();
    let checker = Checker::new(CheckerConfig::default());
    let mut batch = checker.run_batch(names.clone());
    assert_eq!(batch.worker_limit(), 4);
    assert_eq!(batch.names(), &names);
    for i in [2usize, 0, 3] {
        batch.record(i, Some(CheckResult::at(&names[i], Status::Taken, i as u64)));
    }
    batch.record(1, None);
    batch.record(9, Some(CheckResult::at("z", Status::Taken, 0)));
    let order: Vec<String> = batch.finish().into_iter().map(|r| r.username).collect();
    assert_eq!(order, vec!["a", "c", "d"]);
}

#[test]
fn complete_batches_keep_every_result() {
    let names: Vec<String> = (0..50).map(|i| format!("n{i}")).collect();
    let checker = Checker::new(CheckerConfig::default());
    let mut batch = checker.run_batch(names.clone());
    for i in (0..50usize).rev() {
        batch.record(i, Some(CheckResult::at(&names[i], Status::Available, 1)));
    }
    let order: Vec<String> = batch.finish().into_iter().map(|r| r.username).collect();
    assert_eq!(order, names);
}

#[test]
fn workers_are_at_least_one_and_at_most_the_jobs() {
    let limit = |workers: usize, jobs: usize| {
        let checker = Checker::new(CheckerConfig { workers, ..Default::default() });
        checker.run_batch(vec!["x".to_string(); jobs]).worker_limit()
    };
    assert_eq!(limit(0, 5), 1);
    assert_eq!(limit(3, 5), 3);
    assert_eq!(limit(9, 5), 5);
    assert_eq!(limit(9, 0), 0);
}

fn ms(n: u64) -> Interval {
    Interval::from_millis(n)
}

#[test]
fn starts_are_spaced_by_the_delay() {
    let checker = Checker::new(CheckerConfig { delay: ms(25), ..Default::default() });
    let mut pacer = checker.pacer();
    let mut now = 0;
    let mut starts = Vec::new();
    while starts.len() < 1_500 {
        match pacer.on_turn(false, ms(now)) {
            Turn::Start => starts.push(now),
            Turn::Wait(until) => now = until.as_millis() as u64,
            Turn::Skip => panic!("nothing was cancelled"),
        }
    }
    assert_eq!(starts[0], 0);
    assert!(starts.windows(2).all(|w| w[1] - w[0] == 25));
}

#[test]
fn late_tasks_are_spaced_too() {
    let mut pacer = Pacer::new(ms(25));
    assert_eq!(pacer.next_start(ms(7)), ms(7));
    assert_eq!(pacer.on_turn(false, ms(1_000)), Turn::Start);
    assert_eq!(pacer.on_turn(false, ms(1_000)), Turn::Wait(ms(1_025)));
    assert_eq!(pacer.on_turn(false, ms(1_024)), Turn::Wait(ms(1_025)));
    assert_eq!(pacer.next_start(ms(1_003)), ms(1_025));
    assert_eq!(pacer.next_start(ms(1_030)), ms(1_030));
    assert_eq!(pacer.on_turn(false, ms(1_030)), Turn::Start);
    assert_eq!(pacer.on_turn(false, ms(1_031)), Turn::Wait(ms(1_055)));
}

#[test]
fn cancelled_tasks_do_not_start() {
    let mut pacer = Pacer::new(ms(25));
    assert_eq!(pacer.on_turn(true, ms(0)), Turn::Skip);
    assert_eq!(pacer.on_turn(false, ms(3)), Turn::Start);
    assert_eq!(pacer.on_turn(true, ms(4)), Turn::Skip);
    assert_eq!(pacer.on_turn(true, ms(40)), Turn::Skip);
    assert_eq!(pacer.on_turn(false, ms(4)), Turn::Wait(ms(28)));
}

#[test]
fn without_a_delay_nothing_waits() {
    let mut pacer = Checker::new(CheckerConfig::default()).pacer();
    for now in [0, 0, 5, 5] {
        assert_eq!(pacer.on_turn(false, ms(now)), Turn::Start);
    }
}

#[test]
fn starts_past_the_longest_interval_wait() {
    let longest = Interval::from_nanos(u128::MAX);
    let mut pacer = Pacer::new(longest);
    assert_eq!(pacer.on_turn(false, ms(1)), Turn::Start);
    assert_eq!(pacer.on_turn(false, longest), Turn::Wait(longest));
}
