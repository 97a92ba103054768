use dua_checker::counts::Counts;
use dua_checker::session::{
    check_message, hunt_message, render_status, Flow, Msg, Row, Session, Tab, Tone,
    HUNT_VISIBLE_ROW_CAP,
};
use dua_checker::{parse_usernames_text, Charset, CheckResult, GenMode, Length, Status};

fn result(name: &str, status: Status) -> CheckResult {
    CheckResult::at(name, status, 1)
}

#[test]
fn fresh_sessions_are_ready() {
    let s = Session::new();
    assert_eq!(s.tab, Tab::Check);
    assert_eq!(s.check_input, "");
    assert_eq!(s.hunt_length, Length::Four);
    assert_eq!(s.hunt_mode, GenMode::Random);
    assert_eq!(s.hunt_charset, Charset::Letters);
    assert_eq!(s.hunt_count_text, "500");
    assert_eq!(s.workers_text, "8");
    assert_eq!(s.delay_ms_text, "0");
    assert_eq!(s.output_path, "results.txt");
    assert!(s.autosave && s.show_available && s.show_taken && s.show_other);
    assert_eq!(s.status_line, "Ready.");
    assert!(s.rows.is_empty() && s.last_error.is_none() && !s.is_busy());
    assert_eq!(s.counts, Counts::default());
}

#[test]
fn run_settings_fall_back() {
    let mut s = Session::new();
    for (text, workers) in [("12", 12), (" 3 ", 3), ("0", 1), ("", 8), ("x", 8), ("-2", 8)] {
        s.workers_text = text.to_string();
        assert_eq!(s.parse_workers(), workers, "{text}");
    }
    for (text, ms) in [("25", 25), (" 7\n", 7), ("", 0), ("1.5", 0)] {
        s.delay_ms_text = text.to_string();
        assert_eq!(s.parse_delay().as_millis(), ms, "{text}");
    }
}

#[test]
fn checking_needs_a_name() {
    let mut s = Session::new();
    s.check_input = "# nothing\n, ,".to_string();
    assert!(s.start_check().is_none());
    assert_eq!(
        s.last_error.as_deref(),
        Some("Add at least one handle before checking.")
    );
    assert!(!s.is_busy());
}

#[test]
fn checking_starts_with_pending_rows() {
    let mut s = Session::new();
    s.check_input = "alice, bob\ncarl".to_string();
    s.workers_text = "3".to_string();
    s.delay_ms_text = "40".to_string();
    s.last_error = Some("old".to_string());
    let run = s.start_check().unwrap();
    assert_eq!(run.names, vec!["alice", "bob", "carl"]);
    assert_eq!(run.config.workers, 3);
    assert_eq!(run.config.delay.as_millis(), 40);
    assert_eq!(run.config.timeout.as_millis(), 10_000);
    assert_eq!(run.stop_after, None);
    assert_eq!(s.rows.len(), 3);
    assert_eq!(s.rows[1], Row::pending("bob".to_string()));
    assert_eq!(s.status_line, "Checking 0/3…");
    assert_eq!(s.running, Some(3));
    assert_eq!(s.last_error, None);
}

#[test]
fn hunting_generates_candidates() {
    let mut s = Session::new();
    s.hunt_count_text = " 20 ".to_string();
    s.hunt_seed_text = "7".to_string();
    s.hunt_stop_after_text = "2".to_string();
    s.hunt_length = Length::Three;
    let run = s.start_hunt();
    assert_eq!(run.names.len(), 20);
    assert_eq!(run.stop_after, Some(2));
    assert_eq!(s.status_line, "Hunting 20 3-letter handle(s) over letters…");
    assert_eq!(s.running, Some(20));
    assert_eq!(s.start_hunt().names, run.names);
    s.hunt_count_text = "0".to_string();
    s.hunt_stop_after_text = "0".to_string();
    let run = s.start_hunt();
    assert_eq!(run.names.len(), 1000);
    assert_eq!(run.stop_after, None);
    assert_eq!(s.hunt_space(), "(space: 17576)");
    s.hunt_charset = Charset::Alnum;
    assert_eq!(s.hunt_space(), "(space: 46656)");
}

#[test]
fn results_fill_their_rows() {
    let mut s = Session::new();
    s.check_input = "a b".to_string();
    let run = s.start_check().unwrap();
    assert_eq!(run.names.len(), 2);
    let msg = Msg::Result { idx: 1, result: result("b", Status::Taken) };
    assert_eq!(s.on_message(msg), Flow::Continue);
    assert_eq!(s.rows[1].status, Some(Status::Taken));
    assert_eq!(s.rows[0].status, None);
    let stray = Msg::Result { idx: usize::MAX, result: result("c", Status::Available) };
    assert_eq!(s.on_message(stray), Flow::Continue);
    assert_eq!(s.rows.len(), 2);
    assert_eq!(s.counts.taken, 1);
    assert_eq!(s.counts.available, 1);
    s.show_progress(1, 2, "3.5");
    assert_eq!(s.status_line, "Checking 1/2 · 1 hits · 3.5/s");
    assert_eq!(s.on_message(Msg::Done), Flow::Finish(None));
    assert_eq!(
        s.on_message(Msg::Error("lost".to_string())),
        Flow::Finish(Some("lost".to_string()))
    );
    let saved = s.results_to_save();
    assert_eq!(saved.len(), 1);
    assert_eq!(saved[0].username, "b");
    assert_eq!(saved[0].status, Status::Taken);
}

#[test]
fn hits_append_rows_up_to_the_cap() {
    let mut s = Session::new();
    s.start_hunt();
    for i in 0..(HUNT_VISIBLE_ROW_CAP + 10) {
        let hit = Msg::Hit(result(&format!("h{i}"), Status::Available));
        assert_eq!(s.on_message(hit), Flow::Continue);
    }
    assert_eq!(s.rows.len(), HUNT_VISIBLE_ROW_CAP);
    assert_eq!(s.rows[0].username, "h10");
    assert_eq!(s.rows[HUNT_VISIBLE_ROW_CAP - 1].username, "h4105");
    assert_eq!(s.counts.available, HUNT_VISIBLE_ROW_CAP + 10);
}

#[test]
fn finished_runs_report() {
    let mut s = Session::new();
    s.start_hunt();
    s.counts = Counts { available: 1, taken: 2, invalid: 3, rate_limited: 4, errors: 5 };
    s.last_error = Some("kept".to_string());
    s.finish_run("1.5", None, None);
    assert_eq!(
        s.status_line,
        "Done in 1.5s · 1 available · 2 taken · 3 invalid · 4 rate-limited · 5 errors"
    );
    assert_eq!(s.last_error.as_deref(), Some("kept"));
    assert!(!s.is_busy());
    s.finish_run("0.0", Some("disk full".to_string()), None);
    assert_eq!(s.last_error.as_deref(), Some("autosave failed: disk full"));
    s.finish_run("0.0", Some("disk full".to_string()), Some("lost".to_string()));
    assert_eq!(s.last_error.as_deref(), Some("lost"));
}

#[test]
fn saving_reports() {
    let mut s = Session::new();
    assert!(s.results_to_save().is_empty());
    s.on_saved(0);
    assert_eq!(s.last_error.as_deref(), Some("No completed rows to save yet."));
    s.on_saved(4);
    assert_eq!(s.status_line, "Saved 4 row(s) to results.txt");
    s.on_save_failed("no");
    assert_eq!(s.last_error.as_deref(), Some("save failed: no"));
}

#[test]
fn cancelling_and_clearing() {
    let mut s = Session::new();
    assert!(!s.cancel_run());
    assert_eq!(s.status_line, "Ready.");
    s.check_input = "a".to_string();
    s.start_check();
    assert!(s.cancel_run());
    assert_eq!(s.status_line, "Cancellation requested…");
    s.clear();
    assert_eq!(s.check_input, "a");
    s.finish_run("0.0", None, None);
    s.clear();
    assert_eq!(s.check_input, "");
    assert!(s.rows.is_empty());
    assert_eq!(s.status_line, "Ready.");
    s.check_input = "a".to_string();
    s.start_check();
    s.clear_rows();
    assert!(s.rows.is_empty());
    assert_eq!(s.check_input, "a");
}

#[test]
fn loaded_files_go_on_their_own_line() {
    let mut s = Session::new();
    s.tab = Tab::Hunt;
    s.load_text("a\nb");
    assert_eq!(s.check_input, "a\nb");
    assert_eq!(s.tab, Tab::Check);
    s.load_text("# x\nc\n");
    assert_eq!(s.check_input, "a\nb\n# x\nc\n");
    s.load_text("d");
    assert_eq!(s.check_input, "a\nb\n# x\nc\nd");
    assert_eq!(parse_usernames_text(&s.check_input), vec!["a", "b", "c", "d"]);
    s.on_load_failed("f.txt", "gone");
    assert_eq!(s.last_error.as_deref(), Some("could not read f.txt: gone"));
}

#[test]
fn outcomes_have_their_cells() {
    assert_eq!(render_status(&None), ("pending", Tone::Muted, String::new()));
    assert_eq!(
        render_status(&Some(Status::Available)),
        ("AVAILABLE", Tone::Green, String::new())
    );
    assert_eq!(render_status(&Some(Status::Taken)), ("taken", Tone::Red, String::new()));
    assert_eq!(
        render_status(&Some(Status::Invalid { reason: "short".into() })),
        ("invalid", Tone::Amber, "short".to_string())
    );
    assert_eq!(
        render_status(&Some(Status::RateLimited { retry_after_ms: Some(1500) })),
        ("rate-limited", Tone::Purple, "retry after 1.50s".to_string())
    );
    assert_eq!(
        render_status(&Some(Status::RateLimited { retry_after_ms: None })),
        ("rate-limited", Tone::Purple, String::new())
    );
    assert_eq!(
        render_status(&Some(Status::Error { reason: "lost".into() })),
        ("error", Tone::Red, "lost".to_string())
    );
}

#[test]
fn filters_hide_rows() {
    let mut s = Session::new();
    for status in [
        None,
        Some(Status::Available),
        Some(Status::Taken),
        Some(Status::Error { reason: "x".into() }),
        Some(Status::Invalid { reason: "x".into() }),
    ] {
        s.rows.push(Row { username: "n".to_string(), status });
    }
    assert_eq!(s.visible_rows(), vec![0, 1, 2, 3, 4]);
    s.show_taken = false;
    assert_eq!(s.visible_rows(), vec![0, 1, 3, 4]);
    s.show_available = false;
    s.show_other = false;
    assert_eq!(s.visible_rows(), vec![0]);
}

#[test]
fn runs_send_messages_until_cancelled() {
    let hit = result("a", Status::Available);
    let miss = result("b", Status::Taken);
    assert_eq!(
        check_message(false, 4, &miss),
        Some(Msg::Result { idx: 4, result: miss.clone() })
    );
    assert_eq!(check_message(true, 4, &miss), None);
    assert_eq!(hunt_message(false, &hit), Some(Msg::Hit(hit.clone())));
    assert_eq!(
        hunt_message(false, &miss),
        Some(Msg::Result { idx: usize::MAX, result: miss.clone() })
    );
    assert_eq!(hunt_message(true, &hit), None);
}
