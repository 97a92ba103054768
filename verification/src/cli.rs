//! Decisions and messages of the command line.
//!
//! - `check`    verifies one or more handles (positional and/or from a file).
//! - `generate` writes candidate 3/4-letter handles to a text file.
//! - `hunt`     generates and checks in a single streaming pipeline.
//! - `watch`    polls a single handle on an interval until it frees up.
use vstd::prelude::*;
use vstd::string::*;

use crate::counts::Counts;
use crate::generator::{Charset, Length};
use crate::interval::Interval;
use crate::result::{CheckResult, Status};
#[allow(unused_imports)]
use crate::result::{ResultView, StatusView};
use crate::styled::{render_line, segment, Paint, Segment};
#[allow(unused_imports)]
use crate::styled::segment_views;
use crate::text::{chars_of, decimal_text, is_whitespace, joined, same_text, string_of, trim};
#[allow(unused_imports)]
use crate::persistence::{
    are_runs, ends_name, lemma_pieces_are_runs, split, without_empty,
};
#[allow(unused_imports)]
use crate::text::{concatenation, decimal, lemma_views_push, trimmed, views, whitespace};

verus! {

/// How `Debug` renders a text: in double quotes, with escapes.
pub uninterp spec fn debug_text(s: Seq<char>) -> Seq<char>;

/// `std::fmt::Debug` of a `str`, through `format`: the rendering is a function of
/// the text.
#[verifier::external_body]
fn quoted(s: &str) -> (text: String)
    ensures
        text@ == debug_text(s@),
{
    format!("{:?}", s)
}

/// The complaint about a length argument that is shown as `shown`.
pub fn length_complaint(shown: &str) -> (message: String)
    ensures
        message@ == "length must be 3 or 4 (got "@ + shown@ + ")"@,
{
    proof {
        reveal_with_fuel(concatenation, 3);
    }
    joined(&["length must be 3 or 4 (got ", shown, ")"])
}

/// Parses the length argument: `3` or `4`, within whitespace.
pub fn parse_length(s: &str) -> (length: Result<Length, String>)
    ensures
        match length {
            Ok(Length::Three) => trimmed(s@) == "3"@,
            Ok(Length::Four) => trimmed(s@) == "4"@,
            Err(message) => trimmed(s@) != "3"@ && trimmed(s@) != "4"@ && message@
                == "length must be 3 or 4 (got "@ + debug_text(trimmed(s@)) + ")"@,
        },
{
    let word = trim(s);
    if same_text(word.as_str(), "3") {
        return Ok(Length::Three);
    }
    if same_text(word.as_str(), "4") {
        return Ok(Length::Four);
    }
    let shown = quoted(word.as_str());
    Err(length_complaint(shown.as_str()))
}

/// Why a command cannot run as it was given.
#[derive(Debug, Clone, Copy, PartialEq, Eq, Structural)]
pub enum UsageError {
    NoWorkers,
    NoUsernames,
    NoCandidates,
    EmptyUsername,
}

impl UsageError {
    /// The message for the user.
    pub open spec fn text(self) -> Seq<char> {
        match self {
            UsageError::NoWorkers => "--workers must be >= 1"@,
            UsageError::NoUsernames => "no usernames given; pass names as args or use --input"@,
            UsageError::NoCandidates => "no candidates generated"@,
            UsageError::EmptyUsername => "username must not be empty"@,
        }
    }

    /// The message for the user.
    pub fn message(&self) -> (message: &'static str)
        ensures
            message@ == self.text(),
    {
        match self {
            UsageError::NoWorkers => "--workers must be >= 1",
            UsageError::NoUsernames => "no usernames given; pass names as args or use --input",
            UsageError::NoCandidates => "no candidates generated",
            UsageError::EmptyUsername => "username must not be empty",
        }
    }
}

/// Refuses to run without workers.
pub fn require_workers(workers: usize) -> (verdict: Result<(), UsageError>)
    ensures
        verdict == if workers == 0 {
            Err::<(), UsageError>(UsageError::NoWorkers)
        } else {
            Ok::<(), UsageError>(())
        },
{
    if workers == 0 {
        Err(UsageError::NoWorkers)
    } else {
        Ok(())
    }
}

/// The handles in one positional argument: the argument itself, or the fragments
/// between commas and whitespace where it holds any.
pub open spec fn argument_names(argument: Seq<char>) -> Seq<Seq<char>> {
    let pieces = split(argument, |c: char| ends_name(c));
    if pieces.len() == 1 {
        seq![argument]
    } else {
        without_empty(pieces)
    }
}

/// The handles in a list of positional arguments, in order.
pub open spec fn arguments_names(arguments: Seq<Seq<char>>) -> Seq<Seq<char>>
    decreases arguments.len(),
{
    if arguments.len() == 0 {
        seq![]
    } else {
        arguments_names(arguments.drop_last()) + argument_names(arguments.last())
    }
}

/// Appends the handles in one positional argument to `out`.
fn push_argument_names(argument: &str, out: &mut Vec<String>)
    ensures
        views(final(out)@) == views(old(out)@) + argument_names(argument@),
{
    let chars = chars_of(argument);
    let ghost before = views(out@);
    let ghost separates = |c: char| ends_name(c);
    let mut start: usize = 0;
    let mut whole: bool = true;
    let mut i: usize = 0;
    assert(argument@.take(0) =~= seq![]);
    assert(chars@.subrange(0, 0) =~= seq![]);
    assert(split(argument@.take(0), separates) =~= seq![seq![]]);
    assert(split(argument@.take(0), separates).drop_last() =~= seq![]);
    assert(views(out@) =~= before + without_empty(seq![]));
    while i < chars.len()
        invariant
            start <= i <= chars@.len(),
            chars@ == argument@,
            separates == |c: char| ends_name(c),
            whole ==> start == 0,
            split(argument@.take(i as int), separates).len() > 0,
            whole == (split(argument@.take(i as int), separates).len() == 1),
            split(argument@.take(i as int), separates).last() == chars@.subrange(
                start as int,
                i as int,
            ),
            views(out@) == before + without_empty(
                split(argument@.take(i as int), separates).drop_last(),
            ),
        decreases chars@.len() - i,
    {
        let ghost pieces = split(argument@.take(i as int), separates);
        let ghost next = split(argument@.take(i + 1), separates);
        assert(argument@.take(i + 1).drop_last() =~= argument@.take(i as int));
        assert(argument@.take(i + 1).last() == chars@[i as int]);
        let c = chars[i];
        if c == ',' || is_whitespace(c) {
            assert(next == pieces.push(seq![]));
            assert(next.drop_last() =~= pieces);
            if start < i {
                let name = string_of(&chars, start, i);
                proof {
                    lemma_views_push(out@, name);
                }
                out.push(name);
            }
            assert(views(out@) =~= before + without_empty(pieces));
            start = i + 1;
            whole = false;
            assert(chars@.subrange(start as int, i + 1) =~= seq![]);
        } else {
            assert(next.drop_last() =~= pieces.drop_last());
            assert(next.last() =~= chars@.subrange(start as int, i + 1));
        }
        i = i + 1;
    }
    assert(argument@.take(i as int) =~= argument@);
    let ghost pieces = split(argument@, separates);
    if whole || start < i {
        let name = string_of(&chars, start, i);
        proof {
            lemma_views_push(out@, name);
            if whole {
                assert(pieces.drop_last() =~= seq![]);
                assert(name@ =~= argument@);
            }
        }
        out.push(name);
    }
    assert(views(out@) =~= before + argument_names(argument@));
}

/// Gathers the handles to check: those in the arguments, then those from the
/// input file.
pub fn gather_names(arguments: &Vec<String>, from_file: Vec<String>) -> (names: Result<
    Vec<String>,
    UsageError,
>)
    ensures
        ({
            let all = arguments_names(views(arguments@)) + views(from_file@);
            match names {
                Ok(list) => all.len() > 0 && views(list@) == all,
                Err(error) => all.len() == 0 && error == UsageError::NoUsernames,
            }
        }),
{
    let mut names: Vec<String> = Vec::new();
    let mut i: usize = 0;
    assert(views(names@) =~= arguments_names(views(arguments@).take(0)));
    while i < arguments.len()
        invariant
            i <= arguments@.len(),
            views(names@) == arguments_names(views(arguments@).take(i as int)),
        decreases arguments@.len() - i,
    {
        assert(views(arguments@).take(i + 1).drop_last() =~= views(arguments@).take(i as int));
        assert(views(arguments@).take(i + 1).last() == arguments@[i as int]@);
        push_argument_names(arguments[i].as_str(), &mut names);
        i = i + 1;
    }
    assert(views(arguments@).take(i as int) =~= views(arguments@));
    let mut more = from_file;
    let ghost head = names@;
    names.append(&mut more);
    assert(views(names@) =~= views(head) + views(from_file@));
    assert(views(names@).len() == names@.len());
    if names.len() == 0 {
        Err(UsageError::NoUsernames)
    } else {
        Ok(names)
    }
}

/// Refuses to hunt without candidates.
pub fn require_candidates(names: &Vec<String>) -> (verdict: Result<(), UsageError>)
    ensures
        verdict == if names@.len() == 0 {
            Err::<(), UsageError>(UsageError::NoCandidates)
        } else {
            Ok::<(), UsageError>(())
        },
{
    if names.len() == 0 {
        Err(UsageError::NoCandidates)
    } else {
        Ok(())
    }
}

/// The exit code of a run: 2 where a check failed, else 0.
pub fn exit_code(summary: &Counts) -> (code: i32)
    ensures
        code == if summary.errors > 0 {
            2int
        } else {
            0int
        },
        code == run_code(summary.errors as nat),
{
    if summary.errors > 0 {
        2
    } else {
        0
    }
}

/// The opening line of a hunt.
pub open spec fn hunt_banner_text(
    total: nat,
    length: Length,
    charset: Charset,
    workers: nat,
    delay_ms: nat,
) -> Seq<char> {
    "Hunting "@ + decimal(total) + " "@ + decimal(length.chars()) + "-letter handle(s) over "@
        + charset.name() + " ("@ + decimal(workers) + " workers, "@ + decimal(delay_ms)
        + "ms stagger)"@
}

/// Renders the opening line of a hunt.
pub fn hunt_banner(
    total: usize,
    length: Length,
    charset: Charset,
    workers: usize,
    delay_ms: u64,
) -> (line: String)
    ensures
        line@ == hunt_banner_text(
            total as nat,
            length,
            charset,
            workers as nat,
            delay_ms as nat,
        ),
{
    proof {
        reveal_with_fuel(concatenation, 11);
    }
    let total = decimal_text(total as u64);
    let letters = decimal_text(length.as_usize() as u64);
    let workers = decimal_text(workers as u64);
    let delay = decimal_text(delay_ms);
    joined(
        &[
            "Hunting ",
            total.as_str(),
            " ",
            letters.as_str(),
            "-letter handle(s) over ",
            charset.label(),
            " (",
            workers.as_str(),
            " workers, ",
            delay.as_str(),
            "ms stagger)",
        ],
    )
}

/// How far a hunt has come.
#[derive(Debug, Clone, Copy, PartialEq, Eq)]
pub struct HuntTally {
    /// Checks that have finished.
    pub done: usize,
    /// Handles that were found available.
    pub hits: usize,
}

/// What a finished check means for a hunt.
#[derive(Debug, Clone, Copy, PartialEq, Eq, Structural)]
pub struct HuntEvent {
    /// The number of checks that have finished.
    pub position: usize,
    /// The number of hits so far, where this check was one.
    pub hit: Option<usize>,
    /// Whether the rest of the hunt is to be cancelled.
    pub stop: bool,
}

/// Whether a hunt that was to end after `stop_after` hits ends at hit `hits`.
pub open spec fn hunt_is_over(hits: nat, stop_after: Option<usize>) -> bool {
    stop_after matches Some(limit) && hits >= limit
}

impl HuntTally {
    /// A hunt that has not started.
    pub fn new() -> (tally: Self)
        ensures
            tally.done == 0,
            tally.hits == 0,
    {
        HuntTally { done: 0, hits: 0 }
    }

    /// Takes note of a finished check. The hunt stops at a hit that reaches
    /// `stop_after`.
    pub fn record(&mut self, status: &Status, stop_after: Option<usize>) -> (event: HuntEvent)
        requires
            old(self).done < usize::MAX,
            old(self).hits < usize::MAX,
        ensures
            final(self).done == old(self).done + 1,
            final(self).hits == old(self).hits + if status@ is Available {
                1int
            } else {
                0int
            },
            event.position == final(self).done,
            event.hit == if status@ is Available {
                Some(final(self).hits)
            } else {
                None
            },
            event.stop == (status@ is Available && hunt_is_over(
                final(self).hits as nat,
                stop_after,
            )),
            event.stop == (status@ is Available && match stop_after {
                Some(limit) => final(self).hits >= limit,
                None => false,
            }),
            (*final(self), event) == after_check(*old(self), status@, stop_after),
    {
        self.done = self.done + 1;
        if !status.is_available() {
            return HuntEvent { position: self.done, hit: None, stop: false };
        }
        self.hits = self.hits + 1;
        let stop: bool = match stop_after {
            Some(limit) => self.hits >= limit,
            None => false,
        };
        HuntEvent { position: self.done, hit: Some(self.hits), stop }
    }
}

/// The message of the progress bar when a hunt stops at hit `hits`.
pub fn stop_message(hits: usize) -> (message: String)
    ensures
        message@ == "stop-after hit at "@ + decimal(hits as nat),
{
    proof {
        reveal_with_fuel(concatenation, 2);
    }
    let number = decimal_text(hits as u64);
    joined(&["stop-after hit at ", number.as_str()])
}

/// The report of a number followed by what it counts and a path.
fn report(head: &str, n: usize, tail: &str, path: &str) -> (message: String)
    ensures
        message@ == head@ + decimal(n as nat) + tail@ + path@,
{
    proof {
        reveal_with_fuel(concatenation, 4);
    }
    let number = decimal_text(n as u64);
    joined(&[head, number.as_str(), tail, path])
}

/// The report on lines appended to the text log; none where there were none.
pub fn appended_lines(written: usize, path: &str) -> (message: Option<String>)
    ensures
        match message {
            Some(text) => written > 0 && text@ == "Appended "@ + decimal(written as nat)
                + " line(s) to "@ + path@,
            None => written == 0,
        },
{
    if written > 0 {
        Some(report("Appended ", written, " line(s) to ", path))
    } else {
        None
    }
}

/// The report on records appended to the JSON log; none where there were none.
pub fn appended_records(written: usize, path: &str) -> (message: Option<String>)
    ensures
        match message {
            Some(text) => written > 0 && text@ == "Appended "@ + decimal(written as nat)
                + " JSON record(s) to "@ + path@,
            None => written == 0,
        },
{
    if written > 0 {
        Some(report("Appended ", written, " JSON record(s) to ", path))
    } else {
        None
    }
}

/// The report on hits streamed to a file.
pub fn streamed_hits(hits: usize, path: &str) -> (message: String)
    ensures
        message@ == decimal(hits as nat) + " available hit(s) streamed to "@ + path@,
{
    proof {
        reveal_strlit("");
        assert(""@ + decimal(hits as nat) =~= decimal(hits as nat));
    }
    report("", hits, " available hit(s) streamed to ", path)
}

/// The report on a generated list.
pub fn generated_report(appended: bool, n: usize, space: usize, path: &str) -> (line: Vec<Segment>)
    ensures
        segment_views(line@) == seq![
            (
                if appended {
                    "Appended "@
                } else {
                    "Wrote "@
                },
                Paint::Plain,
            ),
            (decimal(n as nat), Paint::CyanBold),
            (
                " handles (out of "@ + decimal(space as nat) + " possible) to "@ + path@,
                Paint::Plain,
            ),
        ],
{
    let verb: &str = if appended {
        "Appended "
    } else {
        "Wrote "
    };
    let count = Segment { text: decimal_text(n as u64), paint: Paint::CyanBold };
    let tail = report(" handles (out of ", space, " possible) to ", path);
    let line = vec![
        segment(verb, Paint::Plain),
        count,
        Segment { text: tail, paint: Paint::Plain },
    ];
    assert(segment_views(line@) =~= seq![
        (verb@, Paint::Plain),
        (decimal(n as nat), Paint::CyanBold),
        (tail@, Paint::Plain),
    ]);
    line
}

/// The handle to watch, without surrounding whitespace.
pub fn watch_target(username: &str) -> (target: Result<String, UsageError>)
    ensures
        match target {
            Ok(name) => name@ == trimmed(username@) && name@.len() > 0,
            Err(error) => trimmed(username@).len() == 0 && error == UsageError::EmptyUsername,
        },
{
    let name = trim(username);
    if name.as_str().is_empty() {
        Err(UsageError::EmptyUsername)
    } else {
        Ok(name)
    }
}

/// The pause between two polls: at least a second.
pub fn watch_interval(secs: u64) -> (interval: Interval)
    ensures
        interval@ == if secs < 1 {
            1_000_000_000int
        } else {
            secs * 1_000_000_000
        },
        interval@ == poll_pause(secs as nat),
{
    if secs < 1 {
        Interval::from_secs(1)
    } else {
        Interval::from_secs(secs)
    }
}

/// What to do after a poll.
#[derive(Debug, Clone, Copy, PartialEq, Eq, Structural)]
pub enum WatchStep {
    /// The handle is available: ring the bell if asked to, and exit with 0.
    Found { bell: bool },
    /// The last attempt was made: exit with 1.
    GiveUp,
    /// Sleep, then poll again.
    Sleep,
}

/// What to do after poll number `attempt`. No limit is set by 0.
pub open spec fn watch_decision(
    attempt: nat,
    max_attempts: nat,
    bell: bool,
    available: bool,
) -> WatchStep {
    if available {
        WatchStep::Found { bell }
    } else if max_attempts > 0 && attempt >= max_attempts {
        WatchStep::GiveUp
    } else {
        WatchStep::Sleep
    }
}

/// Decides what to do after a poll.
pub fn watch_step(attempt: u32, max_attempts: u32, bell: bool, status: &Status) -> (step: WatchStep)
    ensures
        step == watch_decision(
            attempt as nat,
            max_attempts as nat,
            bell,
            status@ is Available,
        ),
{
    if status.is_available() {
        return WatchStep::Found { bell };
    }
    if max_attempts > 0 && attempt >= max_attempts {
        return WatchStep::GiveUp;
    }
    WatchStep::Sleep
}

/// A watch polls until the handle is available or the attempts run out: it never
/// goes on past a hit or past its limit, never gives up without a limit, and
/// never before the limit.
pub proof fn law_watch_ends(attempt: nat, max_attempts: nat, bell: bool, available: bool)
    ensures
        watch_decision(attempt, max_attempts, bell, available) is Found <==> available,
        max_attempts > 0 && attempt >= max_attempts ==> !(watch_decision(
            attempt,
            max_attempts,
            bell,
            available,
        ) is Sleep),
        watch_decision(attempt, max_attempts, bell, available) is GiveUp ==> max_attempts > 0
            && attempt >= max_attempts,
{
}

/// The line for one poll of a watch.
pub fn watch_line(attempt: u32, result: &CheckResult) -> (line: Vec<Segment>)
    ensures
        segment_views(line@) == seq![
            ("["@, Paint::Plain),
            ("#"@ + decimal(attempt as nat), Paint::Dim),
            ("] "@, Paint::Plain),
        ] + result@.styled_line(),
{
    proof {
        reveal_with_fuel(concatenation, 2);
    }
    let number = decimal_text(attempt as u64);
    let mark = joined(&["#", number.as_str()]);
    let mut line = vec![
        segment("[", Paint::Plain),
        Segment { text: mark, paint: Paint::Dim },
        segment("] ", Paint::Plain),
    ];
    let ghost head = line@;
    let mut rest = render_line(result);
    let ghost tail = rest@;
    line.append(&mut rest);
    assert(line@ == head + tail);
    assert(segment_views(line@) =~= segment_views(head) + segment_views(tail));
    assert(segment_views(head) =~= seq![
        ("["@, Paint::Plain),
        ("#"@ + decimal(attempt as nat), Paint::Dim),
        ("] "@, Paint::Plain),
    ]);
    line
}

/// The message of a watch that gives up.
pub fn give_up_message(max_attempts: u32) -> (message: String)
    ensures
        message@ == "reached --max-attempts ("@ + decimal(max_attempts as nat) + "); giving up"@,
{
    proof {
        reveal_with_fuel(concatenation, 3);
    }
    let number = decimal_text(max_attempts as u64);
    joined(&["reached --max-attempts (", number.as_str(), "); giving up"])
}

/// The tally of a hunt after one more outcome, and what that means for the hunt.
pub open spec fn after_check(
    tally: HuntTally,
    status: StatusView,
    stop_after: Option<usize>,
) -> (HuntTally, HuntEvent) {
    let done = (tally.done + 1) as usize;
    if status is Available {
        let hits = (tally.hits + 1) as usize;
        (
            HuntTally { done, hits },
            HuntEvent {
                position: done,
                hit: Some(hits),
                stop: hunt_is_over(hits as nat, stop_after),
            },
        )
    } else {
        (
            HuntTally { done, hits: tally.hits },
            HuntEvent { position: done, hit: None, stop: false },
        )
    }
}

/// The tally of a hunt after a list of outcomes.
pub open spec fn after_checks(statuses: Seq<StatusView>, stop_after: Option<usize>) -> HuntTally
    decreases statuses.len(),
{
    if statuses.len() == 0 {
        HuntTally { done: 0, hits: 0 }
    } else {
        after_check(
            after_checks(statuses.drop_last(), stop_after),
            statuses.last(),
            stop_after,
        ).0
    }
}

/// How many of the outcomes are available names.
pub open spec fn available_among(statuses: Seq<StatusView>) -> nat {
    statuses.filter(|s: StatusView| s is Available).len()
}

proof fn lemma_tally_counts(statuses: Seq<StatusView>, stop_after: Option<usize>)
    requires
        statuses.len() <= usize::MAX,
    ensures
        after_checks(statuses, stop_after).done == statuses.len(),
        after_checks(statuses, stop_after).hits == available_among(statuses) <= statuses.len(),
    decreases statuses.len(),
{
    let available = |s: StatusView| s is Available;
    reveal(Seq::filter);
    if statuses.len() > 0 {
        let init = statuses.drop_last();
        lemma_tally_counts(init, stop_after);
    }
}

/// A hunt is told to stop at its n-th available name and at none before: over any
/// list of outcomes from the start of a hunt, the last of them makes it stop exactly
/// where it is an available name and at least as many were found as asked for. No
/// limit never stops it. The event tells how many checks and how many hits there were.
pub proof fn law_hunt_stops_at_the_limit(statuses: Seq<StatusView>, stop_after: Option<usize>)
    requires
        0 < statuses.len() <= usize::MAX,
    ensures
        ({
            let before = after_checks(statuses.drop_last(), stop_after);
            let event = after_check(before, statuses.last(), stop_after).1;
            let hits = available_among(statuses);
            &&& event.stop <==> statuses.last() is Available && (stop_after matches Some(limit)
                && hits >= limit)
            &&& event.position == statuses.len()
            &&& event.hit is Some <==> statuses.last() is Available
            &&& event.hit matches Some(number) ==> number == hits
        }),
{
    lemma_tally_counts(statuses.drop_last(), stop_after);
    lemma_tally_counts(statuses, stop_after);
}

/// A hunt for `n` names, at least one, goes on up to the hit before the `n`-th and is
/// over at the `n`-th.
pub proof fn law_limit_is_exact(hits: nat, n: usize)
    ensures
        hunt_is_over(hits, Some(n)) <==> hits >= n,
        !hunt_is_over(hits, None),
{
}

/// The bell rings at a hit where it was asked for.
pub proof fn law_bell_rings_as_asked(attempt: nat, max_attempts: nat, bell: bool)
    ensures
        watch_decision(attempt, max_attempts, bell, true) == (WatchStep::Found { bell }),
        watch_decision(attempt, max_attempts, bell, false) == if max_attempts > 0 && attempt
            >= max_attempts {
            WatchStep::GiveUp
        } else {
            WatchStep::Sleep
        },
{
}

proof fn lemma_one_piece_without_separators(s: Seq<char>)
    ensures
        split(s, |c: char| ends_name(c)).len() > 0,
        split(s, |c: char| ends_name(c)).len() == 1 <==> (forall|i: int|
            0 <= i < s.len() ==> !ends_name(#[trigger] s[i])),
    decreases s.len(),
{
    let separates = |c: char| ends_name(c);
    if s.len() > 0 {
        let init = s.drop_last();
        lemma_one_piece_without_separators(init);
        assert(s[s.len() - 1] == s.last());
        assert forall|i: int| 0 <= i < init.len() implies init[i] == s[i] by {}
        if ends_name(s.last()) {
            assert(!(forall|i: int| 0 <= i < s.len() ==> !ends_name(#[trigger] s[i])));
        } else if split(s, separates).len() == 1 {
            assert forall|i: int| 0 <= i < s.len() implies !ends_name(#[trigger] s[i]) by {
                if i < init.len() {
                    assert(!ends_name(init[i]));
                }
            }
        } else {
            let i = choose|i: int| 0 <= i < init.len() && ends_name(#[trigger] init[i]);
            assert(ends_name(s[i]));
        }
    }
}

/// An argument without commas and whitespace is a handle as it is. Any other holds as
/// handles the maximal runs of other characters, in order; the law gives their bounds.
pub proof fn law_argument_holds_its_runs(argument: Seq<char>) -> (runs: Seq<(int, int)>)
    ensures
        if forall|i: int|
            0 <= i < argument.len() ==> (#[trigger] argument[i]) != ',' && !whitespace(argument[i]) {
            argument_names(argument) == seq![argument]
        } else {
            are_runs(argument, argument_names(argument), runs)
        },
{
    lemma_one_piece_without_separators(argument);
    let plain = forall|i: int|
        0 <= i < argument.len() ==> (#[trigger] argument[i]) != ',' && !whitespace(argument[i]);
    if plain {
        assert forall|i: int| 0 <= i < argument.len() implies !ends_name(
            #[trigger] argument[i],
        ) by {
            assert(argument[i] != ',');
        }
    } else {
        let i = choose|i: int|
            0 <= i < argument.len() && !((#[trigger] argument[i]) != ',' && !whitespace(
                argument[i],
            ));
        assert(ends_name(argument[i]));
    }
    lemma_pieces_are_runs(argument)
}

/// The handles of arguments are those of each, one after the other.
pub proof fn law_arguments_follow_each_other(
    a: Seq<Seq<char>>,
    b: Seq<Seq<char>>,
    argument: Seq<char>,
)
    ensures
        arguments_names(a + b) == arguments_names(a) + arguments_names(b),
        arguments_names(seq![argument]) == argument_names(argument),
    decreases b.len(),
{
    let one = seq![argument];
    assert(one.drop_last() =~= seq![]);
    assert(arguments_names(one.drop_last()) == Seq::<Seq<char>>::empty());
    assert(arguments_names(one) =~= argument_names(argument));
    if b.len() == 0 {
        assert(a + b =~= a);
        assert(arguments_names(a) + arguments_names(b) =~= arguments_names(a));
    } else {
        law_arguments_follow_each_other(a, b.drop_last(), argument);
        assert((a + b).drop_last() =~= a + b.drop_last());
        assert(arguments_names(a + b) =~= arguments_names(a) + arguments_names(b));
    }
}

/// The opening line of a hunt names the numbers and the pool that it was given.
pub proof fn law_banner_names_the_hunt(
    total: nat,
    length: Length,
    charset: Charset,
    workers: nat,
    delay_ms: nat,
)
    ensures
        hunt_banner_text(total, length, charset, workers, delay_ms) == "Hunting "@ + decimal(total)
            + " "@ + decimal(length.chars()) + "-letter handle(s) over "@ + charset.name() + " ("@
            + decimal(workers) + " workers, "@ + decimal(delay_ms) + "ms stagger)"@,
{
}

/// The exit code of a run with this many failed checks.
pub open spec fn run_code(errors: nat) -> int {
    if errors > 0 {
        2
    } else {
        0
    }
}

/// A run succeeds where no check failed, and else ends with the code 2, however many
/// failed.
pub proof fn law_failed_checks_fail_the_run(errors: nat)
    ensures
        run_code(errors) == 0 <==> errors == 0,
        run_code(errors) == 0 || run_code(errors) == 2,
{
}

/// The pause between two polls in nanoseconds, where `secs` seconds were asked for.
pub open spec fn poll_pause(secs: nat) -> nat {
    if secs < 1 {
        1_000_000_000
    } else {
        secs * 1_000_000_000
    }
}

/// Polls lie as many seconds apart as asked for, and at least one.
pub proof fn law_polls_pause_as_asked(secs: nat)
    ensures
        poll_pause(secs) >= 1_000_000_000,
        secs >= 1 ==> poll_pause(secs) == secs * 1_000_000_000,
        secs == 0 ==> poll_pause(secs) == poll_pause(1),
{
}

} // verus!
