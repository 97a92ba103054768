use dua_checker::cli::{
    appended_lines, appended_records, exit_code, gather_names, generated_report, give_up_message,
    hunt_banner, parse_length, require_candidates, require_workers, stop_message, streamed_hits,
    watch_interval, watch_line, watch_step, watch_target, HuntEvent, HuntTally, UsageError,
    WatchStep,
};
use dua_checker::counts::{summarize, Counts};
use dua_checker::styled::{render_line, Paint, Segment};
use dua_checker::{parse_usernames_text, Charset, CheckResult, Length, Status};

fn plain(line: &[Segment]) -> String {
    line.iter().map(|s| s.text.as_str()).collect()
}

fn strings(list: &[&str]) -> Vec<String> {
    list.iter().map(|s| s.to_string()).collect()
}

#[test]
fn parse_length_accepts_3_and_4() {
    assert!(matches!(parse_length("3").unwrap(), Length::Three));
    assert!(matches!(parse_length("4").unwrap(), Length::Four));
    assert!(parse_length("5").is_err());
    assert!(parse_length("a").is_err());
}

#[test]
fn ensure_parse_usernames_text_works() {
    let names = parse_usernames_text("a, b\nc");
    assert_eq!(names, vec!["a", "b", "c"]);
}

#[test]
fn parse_length_says_what_it_got() {
    assert!(matches!(parse_length(" 3\n"), Ok(Length::Three)));
    assert_eq!(parse_length("33"), Err("length must be 3 or 4 (got \"33\")".to_string()));
    assert_eq!(
        parse_length(" a\"b "),
        Err("length must be 3 or 4 (got \"a\\\"b\")".to_string())
    );
    assert_eq!(parse_length(""), Err("length must be 3 or 4 (got \"\")".to_string()));
}

#[test]
fn commands_refuse_what_they_cannot_run() {
    assert_eq!(require_workers(0), Err(UsageError::NoWorkers));
    assert_eq!(require_workers(1), Ok(()));
    assert_eq!(require_candidates(&vec![]), Err(UsageError::NoCandidates));
    assert_eq!(require_candidates(&strings(&["a"])), Ok(()));
    assert_eq!(UsageError::NoWorkers.message(), "--workers must be >= 1");
    assert_eq!(
        UsageError::NoUsernames.message(),
        "no usernames given; pass names as args or use --input"
    );
    assert_eq!(UsageError::NoCandidates.message(), "no candidates generated");
    assert_eq!(UsageError::EmptyUsername.message(), "username must not be empty");
}

#[test]
fn names_are_gathered_in_order() {
    let gather = |a: &[&str], f: &[&str]| gather_names(&strings(a), strings(f));
    assert_eq!(gather(&["alice", "bob"], &["carl"]), Ok(strings(&["alice", "bob", "carl"])));
    assert_eq!(gather(&["alice,bob", "x y"], &[]), Ok(strings(&["alice", "bob", "x", "y"])));
    assert_eq!(gather(&["a,,b,"], &["c,d"]), Ok(strings(&["a", "b", "c,d"])));
    assert_eq!(gather(&[""], &[]), Ok(strings(&[""])));
    assert_eq!(gather(&[","], &[]), Err(UsageError::NoUsernames));
    assert_eq!(gather(&[], &[]), Err(UsageError::NoUsernames));
}

fn sample_results() -> Vec<CheckResult> {
    vec![
        CheckResult::at("alice", Status::Available, 0),
        CheckResult::at("bob", Status::Taken, 0),
        CheckResult::at("charlie", Status::Invalid { reason: "short".into() }, 0),
        CheckResult::at("dan", Status::RateLimited { retry_after_ms: Some(1500) }, 0),
        CheckResult::at("eve", Status::RateLimited { retry_after_ms: None }, 0),
        CheckResult::at("frank", Status::Error { reason: "HTTP 500".into() }, 0),
    ]
}

#[test]
fn summaries_count_by_kind() {
    let summary = summarize(&sample_results());
    assert_eq!(
        summary,
        Counts { available: 1, taken: 1, invalid: 1, rate_limited: 2, errors: 1 }
    );
    assert_eq!(summary.total(), 6);
    assert_eq!(exit_code(&summary), 2);
    assert_eq!(exit_code(&summarize(&sample_results()[..5].to_vec())), 0);
    assert_eq!(exit_code(&Counts::default()), 0);
    assert_eq!(
        plain(&summary.styled()),
        "summary: 1 available · 1 taken · 1 invalid · 2 rate-limited · 1 error"
    );
    let mut counts = Counts::default();
    counts.bump(&Status::Taken);
    counts.bump(&Status::Taken);
    assert_eq!(counts.taken, 2);
    assert_eq!(counts.total(), 2);
}

#[test]
fn summary_numbers_have_the_color_of_their_kind() {
    let line = Counts { available: 12, taken: 3, invalid: 4, rate_limited: 5, errors: 6 }.styled();
    let painted: Vec<(&str, Paint)> = line
        .iter()
        .filter(|s| s.paint != Paint::Plain)
        .map(|s| (s.text.as_str(), s.paint))
        .collect();
    assert_eq!(
        painted,
        vec![
            ("summary", Paint::Bold),
            ("12", Paint::GreenBold),
            ("3", Paint::Red),
            ("4", Paint::Yellow),
            ("5", Paint::Magenta),
            ("6", Paint::RedDim),
        ]
    );
}

#[test]
fn colored_lines_read_like_plain_lines() {
    for result in sample_results() {
        let line = render_line(&result);
        assert_eq!(plain(&line), result.format_line());
    }
    let hit = render_line(&sample_results()[0]);
    assert_eq!(hit[0].text, "[+]");
    assert_eq!(hit[0].paint, Paint::GreenBold);
    assert_eq!(hit[2].text, "AVAILABLE");
    assert_eq!(hit[2].paint, Paint::GreenBold);
}

#[test]
fn hunts_count_hits_and_stop() {
    let mut tally = HuntTally::new();
    let limit = Some(2);
    assert_eq!(
        tally.record(&Status::Taken, limit),
        HuntEvent { position: 1, hit: None, stop: false }
    );
    assert_eq!(
        tally.record(&Status::Available, limit),
        HuntEvent { position: 2, hit: Some(1), stop: false }
    );
    assert_eq!(
        tally.record(&Status::Available, limit),
        HuntEvent { position: 3, hit: Some(2), stop: true }
    );
    assert_eq!(
        tally.record(&Status::Taken, limit),
        HuntEvent { position: 4, hit: None, stop: false }
    );
    assert_eq!(
        tally.record(&Status::Available, None),
        HuntEvent { position: 5, hit: Some(3), stop: false }
    );
    assert_eq!(stop_message(2), "stop-after hit at 2");
}

#[test]
fn reports_name_numbers_and_paths() {
    assert_eq!(
        hunt_banner(500, Length::Four, Charset::Letters, 16, 25),
        "Hunting 500 4-letter handle(s) over letters (16 workers, 25ms stagger)"
    );
    assert_eq!(
        appended_lines(3, "results.txt"),
        Some("Appended 3 line(s) to results.txt".to_string())
    );
    assert_eq!(appended_lines(0, "results.txt"), None);
    assert_eq!(
        appended_records(2, "r.jsonl"),
        Some("Appended 2 JSON record(s) to r.jsonl".to_string())
    );
    assert_eq!(appended_records(0, "r.jsonl"), None);
    assert_eq!(
        streamed_hits(7, "hits.txt"),
        "7 available hit(s) streamed to hits.txt"
    );
    let line = generated_report(false, 5000, 1_679_616, "names.txt");
    assert_eq!(
        plain(&line),
        "Wrote 5000 handles (out of 1679616 possible) to names.txt"
    );
    assert_eq!(line[1].paint, Paint::CyanBold);
    assert!(plain(&generated_report(true, 1, 2, "n")).starts_with("Appended 1 handles"));
}

#[test]
fn watches_end_on_a_hit_or_at_their_limit() {
    assert_eq!(watch_step(1, 0, true, &Status::Available), WatchStep::Found { bell: true });
    assert_eq!(watch_step(5, 5, false, &Status::Available), WatchStep::Found { bell: false });
    assert_eq!(watch_step(4, 5, true, &Status::Taken), WatchStep::Sleep);
    assert_eq!(watch_step(5, 5, true, &Status::Taken), WatchStep::GiveUp);
    assert_eq!(watch_step(u32::MAX, 0, true, &Status::Taken), WatchStep::Sleep);
    assert_eq!(watch_target(" cool "), Ok("cool".to_string()));
    assert_eq!(watch_target(" \t"), Err(UsageError::EmptyUsername));
    assert_eq!(watch_interval(0).as_millis(), 1000);
    assert_eq!(watch_interval(30).as_millis(), 30_000);
    assert_eq!(give_up_message(3), "reached --max-attempts (3); giving up");
    let line = watch_line(2, &CheckResult::at("cool", Status::Taken, 0));
    assert_eq!(plain(&line), "[#2] [-] cool: taken");
    assert_eq!(line[1].paint, Paint::Dim);
}
