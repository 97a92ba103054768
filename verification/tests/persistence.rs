use dua_checker::json::{parse_json, Json};
use dua_checker::persistence::{
    frame_lines, parse_usernames_line, NameStream, TEXT_LOG_HEADER,
};
use dua_checker::records::{result_record, status_record};
use dua_checker::{
    append_jsonl_log, append_text_log, generate, parse_usernames_text, Charset, CheckResult,
    GenMode, GenerateConfig, Length, Status,
};

#[test]
fn parses_mixed_separators() {
    let text = "alice, bob\ncharlie\n   dan , eve\n\n# comment line\nfrank";
    let names = parse_usernames_text(text);
    assert_eq!(
        names,
        vec!["alice", "bob", "charlie", "dan", "eve", "frank"]
    );
}

#[test]
fn writes_header_only_once() {
    let r1 = CheckResult::new("alice", Status::Available);
    let r2 = CheckResult::new("bob", Status::Taken);
    let (first, n1) = append_text_log(false, &vec![r1.clone()]);
    let (second, n2) = append_text_log(true, &vec![r2.clone()]);
    assert_eq!((n1, n2), (1, 1));

    let content = first + &second;
    let lines: Vec<&str> = content.lines().collect();
    assert_eq!(lines[0], TEXT_LOG_HEADER);
    assert_eq!(lines[1], "alice - AVAILABLE");
    assert_eq!(lines[2], "bob - TAKEN");
    // Header appears exactly once.
    assert_eq!(content.matches(TEXT_LOG_HEADER).count(), 1);
    // One batch of both results writes the same text.
    assert_eq!(content, append_text_log(false, &vec![r1, r2]).0);
}

#[test]
fn log_of_nothing_is_the_header() {
    assert_eq!(
        append_text_log(false, &vec![]),
        ("# Discord username check results\n".to_string(), 0)
    );
    assert_eq!(append_text_log(true, &vec![]), (String::new(), 0));
}

#[test]
fn records_are_framed_line_by_line() {
    let records = vec!["{\"a\":1}".to_string(), "{}".to_string()];
    let (log, written) = append_jsonl_log(&records);
    assert_eq!(log, "{\"a\":1}\n{}\n");
    assert_eq!(written, 2);
    let read: Vec<String> = log.lines().map(str::to_string).collect();
    assert_eq!(read, records);
    assert_eq!(append_jsonl_log(&vec![]), (String::new(), 0));
}

#[test]
fn comments_and_separators() {
    let parse = |s: &str| parse_usernames_text(s);
    assert!(parse("").is_empty());
    assert!(parse("\n\n , ,\t\n").is_empty());
    assert!(parse("   # note, more").is_empty());
    assert_eq!(parse("a #b"), vec!["a", "#b"]);
    assert_eq!(parse(", #b"), vec!["#b"]);
    assert_eq!(parse("a\r\nb\r\n"), vec!["a", "b"]);
    assert_eq!(parse("a\rb"), vec!["a", "b"]);
    assert_eq!(parse("a\u{3000}b\u{a0},,c"), vec!["a", "b", "c"]);
    assert_eq!(parse("#x\ny"), vec!["y"]);
    assert_eq!(parse("dup dup"), vec!["dup", "dup"]);
}

#[test]
fn line_by_line_gives_the_same_names() {
    let text = "alice, bob\r\n# no\r\n  carl\t dan\n\neve,";
    let mut streamed: Vec<String> = Vec::new();
    for line in text.lines() {
        streamed.extend(parse_usernames_line(line));
    }
    assert_eq!(streamed, parse_usernames_text(text));
    assert_eq!(streamed, vec!["alice", "bob", "carl", "dan", "eve"]);
    assert_eq!(parse_usernames_line("a,b\r"), parse_usernames_line("a,b"));
    for text in ["", "\n", "a\r", "a\r\r\nb\n", "\r\n\r\nx\r\n", "#a\r\nb c\n\n"] {
        let by_line: Vec<String> = text.lines().flat_map(parse_usernames_line).collect();
        assert_eq!(by_line, parse_usernames_text(text), "{text:?}");
    }
}

#[test]
fn joined_texts_keep_their_names() {
    let (a, b) = ("x, y", "# c\nz");
    let mut both = parse_usernames_text(a);
    both.extend(parse_usernames_text(b));
    assert_eq!(parse_usernames_text(&format!("{a}\n{b}")), both);
}

#[test]
fn generated_list_reads_back() {
    let cfg = GenerateConfig {
        length: Length::Four,
        charset: Charset::Alnum,
        mode: GenMode::Random,
        count: Some(200),
        seed: Some(5),
    };
    let names = generate(&cfg);
    let text = frame_lines(&names);
    assert_eq!(text.lines().count(), 200);
    assert_eq!(parse_usernames_text(&text), names);
}

#[test]
fn streams_count_their_names() {
    let text = "alice, bob\r\n# no\n\ncarl";
    let mut stream = NameStream::new();
    let mut names: Vec<String> = Vec::new();
    for (line, so_far) in text.lines().zip([2usize, 2, 2, 3]) {
        names.extend(stream.on_line(line));
        assert_eq!(stream.emitted(), so_far);
        assert_eq!(names.len(), so_far);
    }
    assert_eq!(names, parse_usernames_text(text));
}

/// A document as `serde_json` holds it.
fn value_of(json: &Json) -> serde_json::Value {
    match json {
        Json::Null => serde_json::Value::Null,
        Json::Bool(b) => serde_json::Value::from(*b),
        Json::Number { whole: Some(n), .. } => serde_json::Value::from(*n),
        Json::Number { bits, .. } => serde_json::Value::from(bits.map(f64::from_bits)),
        Json::Str(s) => serde_json::Value::from(s.as_str()),
        Json::Array(items) => serde_json::Value::Array(items.iter().map(value_of).collect()),
        Json::Object(members) => serde_json::Value::Object(
            members.iter().map(|(k, v)| (k.clone(), value_of(v))).collect(),
        ),
    }
}

fn text_at<'a>(json: &'a Json, key: &str) -> &'a str {
    match json.get(key) {
        Some(Json::Str(s)) => s,
        other => panic!("no text at {key}: {other:?}"),
    }
}

#[test]
fn jsonl_roundtrips() {
    let r = CheckResult::new(
        "alice",
        Status::Invalid {
            reason: "too short".into(),
        },
    );
    let line = value_of(&result_record(&r)).to_string();
    let (content, written) = append_jsonl_log(&vec![line]);
    assert_eq!(written, 1);
    let parsed = parse_json(content.trim()).unwrap();
    assert_eq!(text_at(&parsed, "username"), "alice");
    let status = parsed.get("status").unwrap();
    assert_eq!(text_at(status, "kind"), "invalid");
    assert_eq!(text_at(status, "reason"), "too short");
    match parsed.get("checked_at") {
        Some(Json::Number { whole, .. }) => assert_eq!(*whole, Some(r.checked_at)),
        other => panic!("no time: {other:?}"),
    }
}

#[test]
fn records_hold_every_outcome() {
    let member = |k: &str, v: Json| (k.to_string(), v);
    let word = |s: &str| Json::Str(s.to_string());
    let whole = |n: u64| Json::Number { whole: Some(n), bits: None };
    assert_eq!(
        result_record(&CheckResult::at("bob", Status::Taken, u64::MAX)),
        Json::Object(vec![
            member("username", word("bob")),
            member("status", Json::Object(vec![member("kind", word("taken"))])),
            member("checked_at", whole(u64::MAX)),
        ])
    );
    assert_eq!(
        status_record(&Status::Available),
        Json::Object(vec![member("kind", word("available"))])
    );
    assert_eq!(
        status_record(&Status::RateLimited { retry_after_ms: Some(2500) }),
        Json::Object(vec![
            member("kind", word("rate_limited")),
            member("retry_after_ms", whole(2500)),
        ])
    );
    assert_eq!(
        status_record(&Status::RateLimited { retry_after_ms: None }),
        Json::Object(vec![
            member("kind", word("rate_limited")),
            member("retry_after_ms", Json::Null),
        ])
    );
    assert_eq!(
        status_record(&Status::Error { reason: "a\"\n".into() }),
        Json::Object(vec![
            member("kind", word("error")),
            member("reason", word("a\"\n")),
        ])
    );
}
