//! The state of a desktop session and the decisions behind its controls.
//!
//! Two modes:
//!
//! - **Check**: paste or load a username list and check it concurrently.
//! - **Hunt**: generate 3- or 4-letter candidates and stream them through the
//!   checker, surfacing every hit live.
//!
//! Widgets, files and running checks belong to the caller: it edits the public
//! fields, calls a method for each control, and passes on the messages of a run.
use vstd::prelude::*;
use vstd::string::*;

use crate::checker::CheckerConfig;
use crate::counts::Counts;
#[allow(unused_imports)]
use crate::counts::{bumped, kind, no_counts};
use crate::generator::{generate, Charset, GenMode, GenerateConfig, Length};
#[allow(unused_imports)]
use crate::generator::{batch_size, is_batch, unique_handles};
use crate::interval::Interval;
use crate::persistence::parse_usernames_text;
#[allow(unused_imports)]
use crate::persistence::{law_names_of_joined_texts, text_names};
use crate::result::{CheckResult, Status};
#[allow(unused_imports)]
use crate::result::{ResultView, StatusView};
use crate::seconds::render_seconds;
#[allow(unused_imports)]
use crate::seconds::seconds_text;
use crate::text::{chars_of, decimal_text, joined, parse_number, trim};
#[allow(unused_imports)]
use crate::text::{
    concatenation, decimal, is_digit, law_decimal_reads_back, law_trimming_keeps_the_rest,
    lemma_decimal_digits, parsed_number, trimmed, views,
};

verus! {

/// The most rows that a hunt keeps in the table.
pub const HUNT_VISIBLE_ROW_CAP: usize = 4096;

/// The tab that is shown.
#[derive(Debug, Clone, Copy, PartialEq, Eq, Structural)]
pub enum Tab {
    Check,
    Hunt,
}

/// A row of the results table.
#[derive(Debug, PartialEq, Eq)]
pub struct Row {
    pub username: String,
    /// The outcome, once there is one.
    pub status: Option<Status>,
}

/// A [`Row`] with its texts as sequences of characters.
pub struct RowView {
    pub username: Seq<char>,
    pub status: Option<StatusView>,
}

impl View for Row {
    type V = RowView;

    open spec fn view(&self) -> RowView {
        RowView {
            username: self.username@,
            status: match self.status {
                Some(status) => Some(status@),
                None => None,
            },
        }
    }
}

impl Row {
    /// A row whose check has not finished.
    pub fn pending(username: String) -> (row: Self)
        ensures
            row@ == (RowView { username: username@, status: None }),
    {
        Row { username, status: None }
    }
}

/// The rows with their texts as sequences of characters.
pub open spec fn row_views(rows: Seq<Row>) -> Seq<RowView> {
    Seq::new(rows.len(), |i: int| rows[i]@)
}

/// One pending row for each name.
pub open spec fn pending_rows(names: Seq<Seq<char>>) -> Seq<RowView> {
    Seq::new(names.len(), |i: int| RowView { username: names[i], status: None })
}

/// Everything that a session remembers.
#[derive(Debug)]
pub struct Session {
    pub tab: Tab,
    /// The names to check, as typed.
    pub check_input: String,
    pub hunt_length: Length,
    pub hunt_mode: GenMode,
    pub hunt_charset: Charset,
    pub hunt_count_text: String,
    pub hunt_seed_text: String,
    pub hunt_stop_after_text: String,
    pub workers_text: String,
    pub delay_ms_text: String,
    pub output_path: String,
    pub autosave: bool,
    pub rows: Vec<Row>,
    pub counts: Counts,
    pub status_line: String,
    pub last_error: Option<String>,
    /// The number of checks in the present run, where there is one.
    pub running: Option<usize>,
    pub show_available: bool,
    pub show_taken: bool,
    pub show_other: bool,
}

/// A [`Session`] with its texts and lists as sequences.
pub struct SessionView {
    pub tab: Tab,
    pub check_input: Seq<char>,
    pub hunt_length: Length,
    pub hunt_mode: GenMode,
    pub hunt_charset: Charset,
    pub hunt_count_text: Seq<char>,
    pub hunt_seed_text: Seq<char>,
    pub hunt_stop_after_text: Seq<char>,
    pub workers_text: Seq<char>,
    pub delay_ms_text: Seq<char>,
    pub output_path: Seq<char>,
    pub autosave: bool,
    pub rows: Seq<RowView>,
    pub counts: Counts,
    pub status_line: Seq<char>,
    pub last_error: Option<Seq<char>>,
    pub running: Option<usize>,
    pub show_available: bool,
    pub show_taken: bool,
    pub show_other: bool,
}

/// The text of an optional string.
pub open spec fn optional_text(text: Option<String>) -> Option<Seq<char>> {
    match text {
        Some(s) => Some(s@),
        None => None,
    }
}

impl View for Session {
    type V = SessionView;

    open spec fn view(&self) -> SessionView {
        SessionView {
            tab: self.tab,
            check_input: self.check_input@,
            hunt_length: self.hunt_length,
            hunt_mode: self.hunt_mode,
            hunt_charset: self.hunt_charset,
            hunt_count_text: self.hunt_count_text@,
            hunt_seed_text: self.hunt_seed_text@,
            hunt_stop_after_text: self.hunt_stop_after_text@,
            workers_text: self.workers_text@,
            delay_ms_text: self.delay_ms_text@,
            output_path: self.output_path@,
            autosave: self.autosave,
            rows: row_views(self.rows@),
            counts: self.counts,
            status_line: self.status_line@,
            last_error: optional_text(self.last_error),
            running: self.running,
            show_available: self.show_available,
            show_taken: self.show_taken,
            show_other: self.show_other,
        }
    }
}

/// A message of a run to its session.
#[derive(Debug, PartialEq, Eq)]
pub enum Msg {
    /// A check has finished; `idx` is its row, where it has one.
    Result { idx: usize, result: CheckResult },
    /// A hunt has found an available handle.
    Hit(CheckResult),
    /// The run is over.
    Done,
    /// The run could not be carried out.
    Error(String),
}

/// Whether a session expects more messages of a run.
#[derive(Debug, PartialEq, Eq)]
pub enum Flow {
    Continue,
    /// The run is over, for the given reason where it failed.
    Finish(Option<String>),
}

/// A run that the caller is to start.
#[derive(Debug)]
pub struct Run {
    pub names: Vec<String>,
    pub config: CheckerConfig,
    /// Cancel the run after this many hits.
    pub stop_after: Option<usize>,
}

/// The number of workers that the session asks for: 8 where the text is no
/// number, and at least one.
pub open spec fn workers_of(text: Seq<char>) -> nat {
    match parsed_number(trimmed(text), usize::MAX as nat) {
        Some(n) => if n < 1 {
            1
        } else {
            n
        },
        None => 8,
    }
}

/// The delay in milliseconds that the session asks for: 0 where the text is no
/// number.
pub open spec fn delay_of(text: Seq<char>) -> nat {
    match parsed_number(trimmed(text), u64::MAX as nat) {
        Some(n) => n,
        None => 0,
    }
}

/// The number that a text field holds, where it is a positive number.
pub open spec fn positive_of(text: Seq<char>) -> Option<usize> {
    match parsed_number(trimmed(text), usize::MAX as nat) {
        Some(n) => if n > 0 {
            Some(n as usize)
        } else {
            None
        },
        None => None,
    }
}

/// The seed that a text field holds.
pub open spec fn seed_of(text: Seq<char>) -> Option<u64> {
    match parsed_number(trimmed(text), u64::MAX as nat) {
        Some(n) => Some(n as u64),
        None => None,
    }
}

fn number_in(text: &String, max: u64) -> (n: Option<u64>)
    ensures
        match n {
            Some(value) => parsed_number(trimmed(text@), max as nat) == Some(value as nat),
            None => parsed_number(trimmed(text@), max as nat) is None,
        },
        n matches Some(value) ==> value <= max,
{
    let word = trim(text.as_str());
    parse_number(word.as_str(), max)
}

fn positive_in(text: &String) -> (n: Option<usize>)
    ensures
        n == positive_of(text@),
{
    match number_in(text, usize::MAX as u64) {
        Some(value) => if value > 0 {
            Some(value as usize)
        } else {
            None
        },
        None => None,
    }
}

impl SessionView {
    /// The candidates that a hunt is to generate.
    pub open spec fn hunt_config(self) -> GenerateConfig {
        GenerateConfig {
            length: self.hunt_length,
            charset: self.hunt_charset,
            mode: self.hunt_mode,
            count: positive_of(self.hunt_count_text),
            seed: seed_of(self.hunt_seed_text),
        }
    }

    /// Whether `config` is the default with the workers and the delay asked for.
    pub open spec fn configures(self, config: CheckerConfig) -> bool {
        &&& config.workers == workers_of(self.workers_text)
        &&& config.delay@ == delay_of(self.delay_ms_text) * 1_000_000
        &&& config.timeout@ == 10_000_000_000
        &&& config.max_auto_retry_after@ == 10_000_000_000
    }
}

impl Session {
    /// A fresh session.
    pub fn new() -> (session: Self)
        ensures
            session@ == (SessionView {
                tab: Tab::Check,
                check_input: seq![],
                hunt_length: Length::Four,
                hunt_mode: GenMode::Random,
                hunt_charset: Charset::Letters,
                hunt_count_text: "500"@,
                hunt_seed_text: seq![],
                hunt_stop_after_text: seq![],
                workers_text: "8"@,
                delay_ms_text: "0"@,
                output_path: "results.txt"@,
                autosave: true,
                rows: seq![],
                counts: no_counts(),
                status_line: "Ready."@,
                last_error: None,
                running: None,
                show_available: true,
                show_taken: true,
                show_other: true,
            }),
    {
        let session = Session {
            tab: Tab::Check,
            check_input: String::new(),
            hunt_length: Length::Four,
            hunt_mode: GenMode::Random,
            hunt_charset: Charset::Letters,
            hunt_count_text: "500".to_owned(),
            hunt_seed_text: String::new(),
            hunt_stop_after_text: String::new(),
            workers_text: "8".to_owned(),
            delay_ms_text: "0".to_owned(),
            output_path: "results.txt".to_owned(),
            autosave: true,
            rows: Vec::new(),
            counts: Counts::default(),
            status_line: "Ready.".to_owned(),
            last_error: None,
            running: None,
            show_available: true,
            show_taken: true,
            show_other: true,
        };
        assert(session@.rows =~= seq![]);
        session
    }

    pub fn is_busy(&self) -> (busy: bool)
        ensures
            busy == (self@.running is Some),
    {
        self.running.is_some()
    }

    pub fn parse_workers(&self) -> (workers: usize)
        ensures
            workers == workers_of(self@.workers_text),
    {
        match number_in(&self.workers_text, usize::MAX as u64) {
            Some(n) => if n < 1 {
                1
            } else {
                n as usize
            },
            None => 8,
        }
    }

    pub fn parse_delay(&self) -> (delay: Interval)
        ensures
            delay@ == delay_of(self@.delay_ms_text) * 1_000_000,
    {
        match number_in(&self.delay_ms_text, u64::MAX) {
            Some(ms) => Interval::from_millis(ms),
            None => Interval::from_millis(0),
        }
    }

    fn run_config(&self) -> (config: CheckerConfig)
        ensures
            self@.configures(config),
    {
        let standard = CheckerConfig::default();
        CheckerConfig {
            workers: self.parse_workers(),
            delay: self.parse_delay(),
            timeout: standard.timeout,
            max_auto_retry_after: standard.max_auto_retry_after,
        }
    }

    /// Starts checking the names in the input, where there are any.
    pub fn start_check(&mut self) -> (run: Option<Run>)
        ensures
            ({
                let names = text_names(old(self)@.check_input);
                if names.len() == 0 {
                    &&& run is None
                    &&& final(self)@ == (SessionView {
                        last_error: Some("Add at least one handle before checking."@),
                        ..old(self)@
                    })
                } else {
                    &&& run matches Some(r) && views(r.names@) == names && old(self)@.configures(
                        r.config,
                    ) && r.stop_after is None
                    &&& final(self)@ == (SessionView {
                        rows: pending_rows(names),
                        counts: no_counts(),
                        last_error: None,
                        status_line: "Checking 0/"@ + decimal(names.len()) + "…"@,
                        running: Some(names.len() as usize),
                        ..old(self)@
                    })
                }
            }),
    {
        let names = parse_usernames_text(self.check_input.as_str());
        assert(views(names@).len() == names@.len());
        if names.len() == 0 {
            self.last_error = Some("Add at least one handle before checking.".to_owned());
            return None;
        }
        let config = self.run_config();
        let mut rows: Vec<Row> = Vec::new();
        let mut i: usize = 0;
        while i < names.len()
            invariant
                i <= names@.len(),
                row_views(rows@) == pending_rows(views(names@)).take(i as int),
            decreases names@.len() - i,
        {
            let ghost before = rows@;
            rows.push(Row::pending(names[i].clone()));
            i = i + 1;
            assert(row_views(rows@) =~= row_views(before).push(rows@[i - 1]@));
            assert(row_views(rows@) =~= pending_rows(views(names@)).take(i as int));
        }
        assert(pending_rows(views(names@)).take(i as int) =~= pending_rows(views(names@)));
        proof {
            reveal_with_fuel(concatenation, 3);
        }
        let total: usize = names.len();
        let number = decimal_text(total as u64);
        self.rows = rows;
        self.counts = Counts::default();
        self.last_error = None;
        self.status_line = joined(&["Checking 0/", number.as_str(), "…"]);
        self.running = Some(total);
        Some(Run { names, config, stop_after: None })
    }

    /// Generates candidates and starts checking them. There is always a candidate,
    /// since a count that is no positive number counts as none.
    pub fn start_hunt(&mut self) -> (run: Run)
        ensures
            is_batch(old(self)@.hunt_config(), views(run.names@)),
            run.names@.len() > 0,
            old(self)@.configures(run.config),
            run.stop_after == positive_of(old(self)@.hunt_stop_after_text),
            ({
                let size = batch_size(old(self)@.hunt_config());
                final(self)@ == (SessionView {
                    rows: seq![],
                    counts: no_counts(),
                    last_error: None,
                    status_line: "Hunting "@ + decimal(size) + " "@ + decimal(
                        old(self)@.hunt_length.chars(),
                    ) + "-letter handle(s) over "@ + old(self)@.hunt_charset.name() + "…"@,
                    running: Some(size as usize),
                    ..old(self)@
                })
            }),
    {
        let stop_after: Option<usize> = positive_in(&self.hunt_stop_after_text);
        let cfg = GenerateConfig {
            length: self.hunt_length,
            charset: self.hunt_charset,
            mode: self.hunt_mode,
            count: positive_in(&self.hunt_count_text),
            seed: number_in(&self.hunt_seed_text, u64::MAX),
        };
        let names = generate(&cfg);
        assert(views(names@).len() == names@.len());
        proof {
            crate::generator::law_space_sizes(cfg.charset, cfg.length);
        }
        let config = self.run_config();
        proof {
            reveal_with_fuel(concatenation, 7);
        }
        let total: usize = names.len();
        let number = decimal_text(total as u64);
        let letters = decimal_text(self.hunt_length.as_usize() as u64);
        self.rows.clear();
        assert(row_views(self.rows@) =~= seq![]);
        self.counts = Counts::default();
        self.last_error = None;
        self.status_line = joined(
            &[
                "Hunting ",
                number.as_str(),
                " ",
                letters.as_str(),
                "-letter handle(s) over ",
                self.hunt_charset.label(),
                "…",
            ],
        );
        self.running = Some(total);
        Run { names, config, stop_after }
    }
}

/// The rows after a hunt's hit: the newest ones, up to the cap.
pub open spec fn with_hit(rows: Seq<RowView>, row: RowView) -> Seq<RowView> {
    let all = rows.push(row);
    if all.len() > HUNT_VISIBLE_ROW_CAP {
        all.skip(all.len() - HUNT_VISIBLE_ROW_CAP)
    } else {
        all
    }
}

/// The rows after the result of the check at row `idx`, where there is such a row.
pub open spec fn with_result(rows: Seq<RowView>, idx: nat, status: StatusView) -> Seq<RowView> {
    if idx < rows.len() {
        rows.update(
            idx as int,
            RowView { username: rows[idx as int].username, status: Some(status) },
        )
    } else {
        rows
    }
}

/// Results fill in rows without moving them: a row keeps its name and its place,
/// and no row but the one that the result is for changes.
pub proof fn law_results_keep_rows_in_place(
    rows: Seq<RowView>,
    idx: nat,
    status: StatusView,
    i: int,
)
    requires
        0 <= i < rows.len(),
    ensures
        with_result(rows, idx, status).len() == rows.len(),
        with_result(rows, idx, status)[i].username == rows[i].username,
        with_result(rows, idx, status)[i].status == if i == idx {
            Some(status)
        } else {
            rows[i].status
        },
{
}

impl Msg {
    /// The outcome that the message brings.
    pub open spec fn outcome(self) -> Option<StatusView> {
        match self {
            Msg::Result { result, .. } => Some(result.status@),
            Msg::Hit(result) => Some(result.status@),
            _ => None,
        }
    }
}

impl Session {
    /// Takes in a message of the present run.
    pub fn on_message(&mut self, msg: Msg) -> (flow: Flow)
        requires
            msg.outcome() matches Some(status) ==> old(self)@.counts.get(kind(status))
                < usize::MAX,
        ensures
            match msg {
                Msg::Result { idx, result } => {
                    &&& flow is Continue
                    &&& final(self)@ == (SessionView {
                        counts: bumped(old(self)@.counts, kind(result.status@)),
                        rows: with_result(old(self)@.rows, idx as nat, result.status@),
                        ..old(self)@
                    })
                },
                Msg::Hit(result) => {
                    &&& flow is Continue
                    &&& final(self)@ == (SessionView {
                        counts: bumped(old(self)@.counts, kind(result.status@)),
                        rows: with_hit(
                            old(self)@.rows,
                            RowView { username: result.username@, status: Some(result.status@) },
                        ),
                        ..old(self)@
                    })
                },
                Msg::Done => flow == Flow::Finish(None) && final(self)@ == old(self)@,
                Msg::Error(reason) => flow == Flow::Finish(Some(reason)) && final(self)@ == old(
                    self,
                )@,
            },
    {
        match msg {
            Msg::Result { idx, result } => {
                self.counts.bump(&result.status);
                let ghost before = row_views(self.rows@);
                let ghost status = result.status@;
                if idx < self.rows.len() {
                    let username = self.rows[idx].username.clone();
                    self.rows.set(idx, Row { username, status: Some(result.status) });
                }
                assert(row_views(self.rows@) =~= with_result(before, idx as nat, status));
                Flow::Continue
            },
            Msg::Hit(result) => {
                self.counts.bump(&result.status);
                let ghost before = row_views(self.rows@);
                let row = Row { username: result.username, status: Some(result.status) };
                let ghost view = row@;
                self.rows.push(row);
                assert(row_views(self.rows@) =~= before.push(view));
                let rows: usize = self.rows.len();
                if rows > HUNT_VISIBLE_ROW_CAP {
                    let newest = self.rows.split_off(rows - HUNT_VISIBLE_ROW_CAP);
                    self.rows = newest;
                }
                assert(row_views(self.rows@) =~= with_hit(before, view));
                Flow::Continue
            },
            Msg::Done => Flow::Finish(None),
            Msg::Error(reason) => Flow::Finish(Some(reason)),
        }
    }

    /// Shows how far the present run has come. `rate` is the number of checks per
    /// second, as shown.
    pub fn show_progress(&mut self, done: usize, total: usize, rate: &str)
        ensures
            final(self)@ == (SessionView {
                status_line: "Checking "@ + decimal(done as nat) + "/"@ + decimal(total as nat)
                    + " · "@ + decimal(old(self)@.counts.available as nat) + " hits · "@ + rate@
                    + "/s"@,
                ..old(self)@
            }),
    {
        proof {
            reveal_with_fuel(concatenation, 9);
        }
        let done = decimal_text(done as u64);
        let total = decimal_text(total as u64);
        let hits = decimal_text(self.counts.available as u64);
        self.status_line = joined(
            &[
                "Checking ",
                done.as_str(),
                "/",
                total.as_str(),
                " · ",
                hits.as_str(),
                " hits · ",
                rate,
                "/s",
            ],
        );
    }

    /// Ends the present run. `elapsed` is its duration in seconds, as shown;
    /// `save_error` says why saving its results failed, and `failure` why the run
    /// did.
    pub fn finish_run(&mut self, elapsed: &str, save_error: Option<String>, failure: Option<String>)
        ensures
            final(self)@ == (SessionView {
                status_line: finished_line(elapsed@, old(self)@.counts),
                last_error: match (failure, save_error) {
                    (Some(reason), _) => Some(reason@),
                    (None, Some(reason)) => Some("autosave failed: "@ + reason@),
                    (None, None) => old(self)@.last_error,
                },
                running: None,
                ..old(self)@
            }),
    {
        proof {
            reveal_with_fuel(concatenation, 13);
        }
        let available = decimal_text(self.counts.available as u64);
        let taken = decimal_text(self.counts.taken as u64);
        let invalid = decimal_text(self.counts.invalid as u64);
        let rate_limited = decimal_text(self.counts.rate_limited as u64);
        let errors = decimal_text(self.counts.errors as u64);
        self.status_line = joined(
            &[
                "Done in ",
                elapsed,
                "s · ",
                available.as_str(),
                " available · ",
                taken.as_str(),
                " taken · ",
                invalid.as_str(),
                " invalid · ",
                rate_limited.as_str(),
                " rate-limited · ",
                errors.as_str(),
                " errors",
            ],
        );
        if let Some(reason) = save_error {
            self.last_error = Some(joined(&["autosave failed: ", reason.as_str()]));
        }
        if let Some(reason) = failure {
            self.last_error = Some(reason);
        }
        self.running = None;
    }
}

/// The status line of a finished run.
pub open spec fn finished_line(elapsed: Seq<char>, counts: Counts) -> Seq<char> {
    "Done in "@ + elapsed + "s · "@ + decimal(counts.available as nat) + " available · "@ + decimal(
        counts.taken as nat,
    ) + " taken · "@ + decimal(counts.invalid as nat) + " invalid · "@ + decimal(
        counts.rate_limited as nat,
    ) + " rate-limited · "@ + decimal(counts.errors as nat) + " errors"@
}

/// A hunt shows no more rows than the cap, and the last of them is the last hit.
pub proof fn law_hunt_rows_are_capped(rows: Seq<RowView>, row: RowView)
    ensures
        with_hit(rows, row).len() <= HUNT_VISIBLE_ROW_CAP,
        with_hit(rows, row).last() == row,
        with_hit(rows, row).is_suffix_of(rows.push(row)),
{
    let all = rows.push(row);
    if all.len() > HUNT_VISIBLE_ROW_CAP {
        assert(all.skip(all.len() - HUNT_VISIBLE_ROW_CAP) =~= all.subrange(
            all.len() - HUNT_VISIBLE_ROW_CAP,
            all.len() as int,
        ));
    } else {
        assert(all =~= all.subrange(0, all.len() as int));
    }
}

/// The finished rows as (username, outcome) pairs, in order.
pub open spec fn completed(rows: Seq<RowView>) -> Seq<(Seq<char>, StatusView)>
    decreases rows.len(),
{
    if rows.len() == 0 {
        seq![]
    } else {
        let before = completed(rows.drop_last());
        match rows.last().status {
            Some(status) => before.push((rows.last().username, status)),
            None => before,
        }
    }
}

/// The (username, outcome) pairs of a list of results.
pub open spec fn outcomes(results: Seq<CheckResult>) -> Seq<(Seq<char>, StatusView)> {
    Seq::new(results.len(), |i: int| (results[i].username@, results[i].status@))
}

impl Session {
    /// The results to save: those of the finished rows, stamped with the present
    /// time.
    pub fn results_to_save(&self) -> (results: Vec<CheckResult>)
        ensures
            outcomes(results@) == completed(self@.rows),
    {
        let ghost all = self@.rows;
        let mut results: Vec<CheckResult> = Vec::new();
        let mut i: usize = 0;
        assert(outcomes(results@) =~= completed(all.take(0)));
        while i < self.rows.len()
            invariant
                i <= self.rows@.len(),
                all == row_views(self.rows@),
                outcomes(results@) == completed(all.take(i as int)),
            decreases self.rows@.len() - i,
        {
            let ghost before = results@;
            assert(all.take(i + 1).drop_last() =~= all.take(i as int));
            assert(all.take(i + 1).last() == self.rows@[i as int]@);
            if let Some(status) = &self.rows[i].status {
                let result = CheckResult::new(self.rows[i].username.as_str(), status.clone());
                results.push(result);
                assert(outcomes(results@) =~= outcomes(before).push(
                    (self.rows@[i as int].username@, status@),
                ));
            }
            i = i + 1;
        }
        assert(all.take(i as int) =~= all);
        results
    }

    /// Reports that `written` rows were saved on request.
    pub fn on_saved(&mut self, written: usize)
        ensures
            final(self)@ == if written == 0 {
                SessionView { last_error: Some("No completed rows to save yet."@), ..old(self)@ }
            } else {
                SessionView {
                    status_line: "Saved "@ + decimal(written as nat) + " row(s) to "@ + old(
                        self,
                    )@.output_path,
                    ..old(self)@
                }
            },
    {
        if written == 0 {
            self.last_error = Some("No completed rows to save yet.".to_owned());
            return;
        }
        proof {
            reveal_with_fuel(concatenation, 4);
        }
        let number = decimal_text(written as u64);
        self.status_line = joined(
            &["Saved ", number.as_str(), " row(s) to ", self.output_path.as_str()],
        );
    }

    /// Reports that saving on request failed.
    pub fn on_save_failed(&mut self, error: &str)
        ensures
            final(self)@ == (SessionView {
                last_error: Some("save failed: "@ + error@),
                ..old(self)@
            }),
    {
        proof {
            reveal_with_fuel(concatenation, 2);
        }
        self.last_error = Some(joined(&["save failed: ", error]));
    }

    /// Asks for the present run to be cancelled; says whether there is one.
    pub fn cancel_run(&mut self) -> (cancel: bool)
        ensures
            cancel == (old(self)@.running is Some),
            final(self)@ == if cancel {
                SessionView { status_line: "Cancellation requested…"@, ..old(self)@ }
            } else {
                old(self)@
            },
    {
        if self.running.is_some() {
            self.status_line = "Cancellation requested…".to_owned();
            true
        } else {
            false
        }
    }

    /// Empties the table and the input, unless a run is on.
    pub fn clear(&mut self)
        ensures
            final(self)@ == if old(self)@.running is Some {
                old(self)@
            } else {
                SessionView {
                    rows: seq![],
                    counts: no_counts(),
                    last_error: None,
                    check_input: seq![],
                    status_line: "Ready."@,
                    ..old(self)@
                }
            },
    {
        if self.is_busy() {
            return;
        }
        self.clear_rows();
        self.last_error = None;
        self.check_input = String::new();
    }

    /// Empties the table.
    pub fn clear_rows(&mut self)
        ensures
            final(self)@ == (SessionView {
                rows: seq![],
                counts: no_counts(),
                status_line: "Ready."@,
                ..old(self)@
            }),
    {
        self.rows.clear();
        assert(row_views(self.rows@) =~= seq![]);
        self.counts = Counts::default();
        self.status_line = "Ready.".to_owned();
    }

    /// Adds the text of a file to the input, on a line of its own, and shows it.
    pub fn load_text(&mut self, text: &str)
        ensures
            final(self)@ == (SessionView {
                check_input: with_loaded(old(self)@.check_input, text@),
                tab: Tab::Check,
                ..old(self)@
            }),
    {
        let chars = chars_of(self.check_input.as_str());
        if chars.len() > 0 && chars[chars.len() - 1] != '\n' {
            self.check_input.push('\n');
        }
        self.check_input.append(text);
        self.tab = Tab::Check;
    }

    /// Reports that a file could not be read.
    pub fn on_load_failed(&mut self, path: &str, error: &str)
        ensures
            final(self)@ == (SessionView {
                last_error: Some("could not read "@ + path@ + ": "@ + error@),
                ..old(self)@
            }),
    {
        proof {
            reveal_with_fuel(concatenation, 4);
        }
        self.last_error = Some(joined(&["could not read ", path, ": ", error]));
    }
}

/// `input` with the text of a file added on a line of its own.
pub open spec fn with_loaded(input: Seq<char>, text: Seq<char>) -> Seq<char> {
    if input.len() > 0 && input.last() != '\n' {
        input.push('\n') + text
    } else {
        input + text
    }
}

/// Loading a file adds its names after those of the input.
pub proof fn law_loading_adds_names(input: Seq<char>, text: Seq<char>)
    ensures
        text_names(with_loaded(input, text)) == text_names(input) + text_names(text),
{
    let none = Seq::<char>::empty();
    assert(text_names(none) =~= seq![]) by {
        crate::persistence::law_written_list_reads_back(seq![]);
        assert(crate::persistence::framed(seq![]) =~= none);
    }
    if input.len() == 0 {
        assert(input =~= none);
        assert(with_loaded(input, text) =~= text);
        assert(text_names(input) + text_names(text) =~= text_names(text));
    } else if input.last() != '\n' {
        law_names_of_joined_texts(input, text);
    } else {
        let init = input.drop_last();
        assert(input =~= init.push('\n'));
        law_names_of_joined_texts(init, text);
        law_names_of_joined_texts(init, none);
        assert(init.push('\n') + none =~= input);
        assert(text_names(init) + text_names(none) =~= text_names(init));
    }
}

/// The color of an outcome in the table.
#[derive(Debug, Clone, Copy, PartialEq, Eq, Structural)]
pub enum Tone {
    Muted,
    Green,
    Red,
    Amber,
    Purple,
}

/// The label, the color and the detail that the table shows for an outcome.
pub open spec fn status_cell(status: Option<StatusView>) -> (Seq<char>, Tone, Seq<char>) {
    match status {
        None => ("pending"@, Tone::Muted, seq![]),
        Some(StatusView::Available) => ("AVAILABLE"@, Tone::Green, seq![]),
        Some(StatusView::Taken) => ("taken"@, Tone::Red, seq![]),
        Some(StatusView::Invalid { reason }) => ("invalid"@, Tone::Amber, reason),
        Some(StatusView::RateLimited { retry_after_ms: Some(ms) }) => (
            "rate-limited"@,
            Tone::Purple,
            "retry after "@ + seconds_text(ms) + "s"@,
        ),
        Some(StatusView::RateLimited { retry_after_ms: None }) => (
            "rate-limited"@,
            Tone::Purple,
            seq![],
        ),
        Some(StatusView::Error { reason }) => ("error"@, Tone::Red, reason),
    }
}

/// Renders an outcome for the table.
pub fn render_status(status: &Option<Status>) -> (cell: (&'static str, Tone, String))
    ensures
        (cell.0@, cell.1, cell.2@) == status_cell(
            match status {
                Some(s) => Some(s@),
                None => None,
            },
        ),
{
    proof {
        reveal_with_fuel(concatenation, 3);
    }
    match status {
        None => ("pending", Tone::Muted, String::new()),
        Some(Status::Available) => ("AVAILABLE", Tone::Green, String::new()),
        Some(Status::Taken) => ("taken", Tone::Red, String::new()),
        Some(Status::Invalid { reason }) => ("invalid", Tone::Amber, reason.clone()),
        Some(Status::RateLimited { retry_after_ms }) => {
            let detail: String = match retry_after_ms {
                Some(ms) => {
                    let seconds = render_seconds(*ms);
                    joined(&["retry after ", seconds.as_str(), "s"])
                },
                None => String::new(),
            };
            ("rate-limited", Tone::Purple, detail)
        },
        Some(Status::Error { reason }) => ("error", Tone::Red, reason.clone()),
    }
}

impl SessionView {
    /// Whether the filters let a row with this outcome through.
    pub open spec fn shows(self, status: Option<StatusView>) -> bool {
        match status {
            None => true,
            Some(StatusView::Available) => self.show_available,
            Some(StatusView::Taken) => self.show_taken,
            Some(_) => self.show_other,
        }
    }

    /// The positions of the first `n` rows that the filters let through.
    pub open spec fn visible(self, n: nat) -> Seq<usize>
        decreases n,
    {
        if n == 0 {
            seq![]
        } else {
            let before = self.visible((n - 1) as nat);
            if self.shows(self.rows[n - 1].status) {
                before.push((n - 1) as usize)
            } else {
                before
            }
        }
    }
}

impl Session {
    /// The positions of the rows that the filters let through.
    pub fn visible_rows(&self) -> (positions: Vec<usize>)
        ensures
            positions@ == self@.visible(self@.rows.len()),
    {
        let mut positions: Vec<usize> = Vec::new();
        let mut i: usize = 0;
        while i < self.rows.len()
            invariant
                i <= self.rows@.len(),
                positions@ == self@.visible(i as nat),
            decreases self.rows@.len() - i,
        {
            assert(self@.rows[i as int] == self.rows@[i as int]@);
            let shown: bool = match &self.rows[i].status {
                None => true,
                Some(Status::Available) => self.show_available,
                Some(Status::Taken) => self.show_taken,
                Some(_) => self.show_other,
            };
            if shown {
                positions.push(i);
            }
            i = i + 1;
        }
        positions
    }

    /// The size of the search space of a hunt, as shown beside its length.
    pub fn hunt_space(&self) -> (label: String)
        ensures
            label@ == "(space: "@ + decimal(self@.hunt_config().space()) + ")"@,
    {
        proof {
            reveal_with_fuel(concatenation, 3);
        }
        let cfg = GenerateConfig {
            length: self.hunt_length,
            charset: self.hunt_charset,
            mode: self.hunt_mode,
            count: None,
            seed: None,
        };
        let number = decimal_text(cfg.space_size() as u64);
        joined(&["(space: ", number.as_str(), ")"])
    }
}

/// The message of a check run about a finished check; none once it was cancelled.
pub fn check_message(cancelled: bool, idx: usize, result: &CheckResult) -> (msg: Option<Msg>)
    ensures
        match msg {
            Some(Msg::Result { idx: at, result: sent }) => !cancelled && at == idx && sent@
                == result@,
            Some(_) => false,
            None => cancelled,
        },
{
    if cancelled {
        None
    } else {
        Some(Msg::Result { idx, result: result.clone() })
    }
}

/// The message of a hunt about a finished check; none once it was cancelled. What
/// is no hit is only counted: it names a row that cannot exist.
pub fn hunt_message(cancelled: bool, result: &CheckResult) -> (msg: Option<Msg>)
    ensures
        match msg {
            Some(Msg::Hit(sent)) => !cancelled && result.status@ is Available && sent@ == result@,
            Some(Msg::Result { idx, result: sent }) => !cancelled && !(result.status@
                is Available) && idx == usize::MAX && sent@ == result@,
            Some(_) => false,
            None => cancelled,
        },
{
    if cancelled {
        return None;
    }
    if result.status.is_available() {
        Some(Msg::Hit(result.clone()))
    } else {
        Some(Msg::Result { idx: usize::MAX, result: result.clone() })
    }
}

/// The settings of a run are the numbers in their fields: at least one worker, eight
/// where the field holds no number; no delay where the field holds none; a count and
/// a limit only where they are positive.
pub proof fn law_settings_are_the_numbers_typed(text: Seq<char>, n: nat)
    ensures
        parsed_number(trimmed(text), usize::MAX as nat) == Some(n) ==> {
            &&& workers_of(text) == if n < 1 {
                1
            } else {
                n
            }
            &&& n > 0 ==> positive_of(text) == Some(n as usize)
            &&& n == 0 ==> positive_of(text) is None
        },
        parsed_number(trimmed(text), usize::MAX as nat) is None ==> workers_of(text) == 8
            && positive_of(text) is None,
        parsed_number(trimmed(text), u64::MAX as nat) == Some(n) ==> delay_of(text) == n && seed_of(
            text,
        ) == Some(n as u64),
        parsed_number(trimmed(text), u64::MAX as nat) is None ==> delay_of(text) == 0 && seed_of(
            text,
        ) is None,
{
}

/// A number typed in decimal is taken as it is.
pub proof fn law_typed_numbers_are_taken(n: u32)
    ensures
        workers_of(decimal(n as nat)) == if n < 1 {
            1
        } else {
            n as nat
        },
        delay_of(decimal(n as nat)) == n,
        seed_of(decimal(n as nat)) == Some(n as u64),
        positive_of(decimal(n as nat)) == if n > 0 {
            Some(n as usize)
        } else {
            None
        },
{
    let text = decimal(n as nat);
    law_decimal_reads_back(n as nat, usize::MAX as nat);
    law_decimal_reads_back(n as nat, u64::MAX as nat);
    lemma_decimal_digits(n as nat);
    assert(is_digit(text[0]) && is_digit(text[text.len() - 1]));
    law_trimming_keeps_the_rest(text);
}

/// A run is configured by the fields for workers and delay, and waits at most ten
/// seconds for an answer and before a second request. A hunt generates what its
/// fields ask for.
pub proof fn law_run_is_configured_as_typed(session: SessionView, config: CheckerConfig)
    requires
        session.configures(config),
    ensures
        config.workers == workers_of(session.workers_text),
        config.delay@ == delay_of(session.delay_ms_text) * 1_000_000,
        config.timeout@ == 10_000_000_000,
        config.max_auto_retry_after@ == 10_000_000_000,
        session.hunt_config().length == session.hunt_length,
        session.hunt_config().charset == session.hunt_charset,
        session.hunt_config().mode == session.hunt_mode,
        session.hunt_config().count == positive_of(session.hunt_count_text),
        session.hunt_config().seed == seed_of(session.hunt_seed_text),
{
}

/// A check starts with one row for each name, in order and without an outcome.
pub proof fn law_rows_start_pending(names: Seq<Seq<char>>, i: int)
    requires
        0 <= i < names.len(),
    ensures
        pending_rows(names).len() == names.len(),
        pending_rows(names)[i].username == names[i],
        pending_rows(names)[i].status is None,
{
}

/// A hit adds a row; rows are dropped only past the cap of 4096, the oldest first.
pub proof fn law_hits_add_rows_up_to_the_cap(rows: Seq<RowView>, row: RowView)
    requires
        rows.len() <= 4096,
    ensures
        rows.len() < 4096 ==> with_hit(rows, row) == rows.push(row),
        rows.len() == 4096 ==> with_hit(rows, row) == rows.drop_first().push(row),
{
    if rows.len() == 4096 {
        assert(rows.push(row).skip(1) =~= rows.drop_first().push(row));
    }
}

/// Saving takes the finished rows, each with its name and outcome, in order, and
/// leaves out those that are pending.
pub proof fn law_finished_rows_are_saved(a: Seq<RowView>, b: Seq<RowView>, row: RowView)
    ensures
        completed(a + b) == completed(a) + completed(b),
        completed(seq![row]) == match row.status {
            Some(status) => seq![(row.username, status)],
            None => seq![],
        },
    decreases b.len(),
{
    let one = seq![row];
    assert(one.drop_last() =~= seq![]);
    assert(completed(one.drop_last()) == Seq::<(Seq<char>, StatusView)>::empty());
    assert(completed(one) =~= match row.status {
        Some(status) => seq![(row.username, status)],
        None => seq![],
    });
    if b.len() == 0 {
        assert(a + b =~= a);
        assert(completed(a) + completed(b) =~= completed(a));
    } else {
        law_finished_rows_are_saved(a, b.drop_last(), row);
        assert((a + b).drop_last() =~= a + b.drop_last());
        assert(completed(a + b) =~= completed(a) + completed(b));
    }
}

/// The filters hide outcomes by kind and never a pending row.
pub proof fn law_filters_hide_by_kind(session: SessionView, status: StatusView)
    ensures
        session.shows(None),
        status is Available ==> session.shows(Some(status)) == session.show_available,
        status is Taken ==> session.shows(Some(status)) == session.show_taken,
        !(status is Available) && !(status is Taken) ==> session.shows(Some(status))
            == session.show_other,
{
}

/// The visible rows are those that the filters let through, all of them and in order.
pub proof fn law_visible_rows_pass_the_filters(session: SessionView, n: nat)
    requires
        n <= session.rows.len(),
        n <= usize::MAX,
    ensures
        forall|i: int|
            0 <= i < session.visible(n).len() ==> (#[trigger] session.visible(n)[i]) < n
                && session.shows(session.rows[session.visible(n)[i] as int].status),
        forall|i: int, j: int|
            0 <= i < j < session.visible(n).len() ==> (#[trigger] session.visible(n)[i]) < (
            #[trigger] session.visible(n)[j]),
        forall|k: usize|
            k < n && session.shows(#[trigger] session.rows[k as int].status) ==> session.visible(
                n,
            ).contains(k),
    decreases n,
{
    if n > 0 {
        let fewer = (n - 1) as nat;
        law_visible_rows_pass_the_filters(session, fewer);
        let before = session.visible(fewer);
        let after = session.visible(n);
        let last = (n - 1) as usize;
        assert forall|i: int| 0 <= i < after.len() implies (#[trigger] after[i]) < n
            && session.shows(session.rows[after[i] as int].status) by {
            if i < before.len() {
                assert(after[i] == before[i]);
            }
        }
        assert forall|i: int, j: int| 0 <= i < j < after.len() implies (#[trigger] after[i]) < (
        #[trigger] after[j]) by {
            assert(after[i] == before[i]);
            if j < before.len() {
                assert(after[j] == before[j]);
            }
        }
        assert forall|k: usize|
            k < n && session.shows(#[trigger] session.rows[k as int].status) implies after.contains(
            k,
        ) by {
            if k < fewer {
                assert(before.contains(k));
                let i = choose|i: int| 0 <= i < before.len() && before[i] == k;
                assert(after[i] == k);
            } else {
                assert(after[after.len() - 1] == last);
            }
        }
    }
}

/// The table shows each outcome by its word, its color and what it carries, in full.
pub proof fn law_cell_tells_the_outcome(status: StatusView)
    ensures
        status_cell(None) == ("pending"@, Tone::Muted, Seq::<char>::empty()),
        match status {
            StatusView::Available => status_cell(Some(status)) == (
                "AVAILABLE"@,
                Tone::Green,
                Seq::<char>::empty(),
            ),
            StatusView::Taken => status_cell(Some(status)) == (
                "taken"@,
                Tone::Red,
                Seq::<char>::empty(),
            ),
            StatusView::Invalid { reason } => status_cell(Some(status)) == (
                "invalid"@,
                Tone::Amber,
                reason,
            ),
            StatusView::RateLimited { retry_after_ms: Some(ms) } => status_cell(Some(status)) == (
                "rate-limited"@,
                Tone::Purple,
                "retry after "@ + seconds_text(ms) + "s"@,
            ),
            StatusView::RateLimited { retry_after_ms: None } => status_cell(Some(status)) == (
                "rate-limited"@,
                Tone::Purple,
                Seq::<char>::empty(),
            ),
            StatusView::Error { reason } => status_cell(Some(status)) == (
                "error"@,
                Tone::Red,
                reason,
            ),
        },
{
}

/// Loading keeps what was typed and all of the file, with at most one line break
/// between them.
pub proof fn law_loading_keeps_both_texts(input: Seq<char>, text: Seq<char>)
    ensures
        with_loaded(input, text) == input + text || with_loaded(input, text) == input + seq!['\n']
            + text,
        with_loaded(input, text) == input + text <==> input.len() == 0 || input[input.len() - 1]
            == '\n',
{
    if input.len() > 0 && input.last() != '\n' {
        assert(input.push('\n') + text =~= input + seq!['\n'] + text);
        assert((input.push('\n') + text).len() != (input + text).len());
    }
}

/// The status line of a finished run names its duration and each count.
pub proof fn law_finished_line_names_each_count(elapsed: Seq<char>, counts: Counts)
    ensures
        finished_line(elapsed, counts) == "Done in "@ + elapsed + "s · "@ + decimal(
            counts.available as nat,
        ) + " available · "@ + decimal(counts.taken as nat) + " taken · "@ + decimal(
            counts.invalid as nat,
        ) + " invalid · "@ + decimal(counts.rate_limited as nat) + " rate-limited · "@ + decimal(
            counts.errors as nat,
        ) + " errors"@,
{
}

} // verus!
