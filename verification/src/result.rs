//! Domain types for a single check outcome.
use vstd::prelude::*;
use vstd::string::*;

use crate::clock::now_secs;
use crate::interval::Interval;
use crate::seconds::render_seconds;
#[allow(unused_imports)]
use crate::seconds::seconds_text;
#[allow(unused_imports)]
use crate::text::concatenation;
use crate::text::joined;

verus! {

/// Outcome of a single username check.
///
/// `RateLimited` carries the Retry-After hint that was reported, so a caller can
/// decide whether to back off.
#[derive(Debug, PartialEq, Eq)]
pub enum Status {
    Available,
    Taken,
    Invalid { reason: String },
    RateLimited { retry_after_ms: Option<u64> },
    Error { reason: String },
}

/// A [`Status`] with its texts as sequences of characters.
pub enum StatusView {
    Available,
    Taken,
    Invalid { reason: Seq<char> },
    RateLimited { retry_after_ms: Option<u64> },
    Error { reason: Seq<char> },
}

impl View for Status {
    type V = StatusView;

    open spec fn view(&self) -> StatusView {
        match self {
            Status::Available => StatusView::Available,
            Status::Taken => StatusView::Taken,
            Status::Invalid { reason } => StatusView::Invalid { reason: reason@ },
            Status::RateLimited { retry_after_ms } => StatusView::RateLimited {
                retry_after_ms: *retry_after_ms,
            },
            Status::Error { reason } => StatusView::Error { reason: reason@ },
        }
    }
}

impl Clone for Status {
    fn clone(&self) -> (copy: Self)
        ensures
            copy@ == self@,
    {
        match self {
            Status::Available => Status::Available,
            Status::Taken => Status::Taken,
            Status::Invalid { reason } => Status::Invalid { reason: reason.clone() },
            Status::RateLimited { retry_after_ms } => Status::RateLimited {
                retry_after_ms: *retry_after_ms,
            },
            Status::Error { reason } => Status::Error { reason: reason.clone() },
        }
    }
}

impl StatusView {
    /// The upper-case word for the outcome.
    pub open spec fn token(self) -> Seq<char> {
        match self {
            StatusView::Available => "AVAILABLE"@,
            StatusView::Taken => "TAKEN"@,
            StatusView::Invalid { .. } => "INVALID"@,
            StatusView::RateLimited { .. } => "RATE_LIMITED"@,
            StatusView::Error { .. } => "ERROR"@,
        }
    }

    /// The reason that comes with a rejection or a failure.
    pub open spec fn reason(self) -> Option<Seq<char>> {
        match self {
            StatusView::Invalid { reason } => Some(reason),
            StatusView::Error { reason } => Some(reason),
            _ => None,
        }
    }
}

impl Status {
    pub fn token(&self) -> (token: &'static str)
        ensures
            token@ == self@.token(),
    {
        match self {
            Status::Available => "AVAILABLE",
            Status::Taken => "TAKEN",
            Status::Invalid { .. } => "INVALID",
            Status::RateLimited { .. } => "RATE_LIMITED",
            Status::Error { .. } => "ERROR",
        }
    }

    pub fn reason(&self) -> (reason: Option<&str>)
        ensures
            match reason {
                Some(text) => self@.reason() == Some(text@),
                None => self@.reason() is None,
            },
    {
        match self {
            Status::Invalid { reason } => Some(reason.as_str()),
            Status::Error { reason } => Some(reason.as_str()),
            Status::RateLimited { .. } => None,
            Status::Available => None,
            Status::Taken => None,
        }
    }

    pub fn retry_after(&self) -> (wait: Option<Interval>)
        ensures
            match (self@, wait) {
                (StatusView::RateLimited { retry_after_ms: Some(ms) }, Some(d)) => d@ == ms
                    * 1_000_000,
                (StatusView::RateLimited { retry_after_ms: Some(_) }, None) => false,
                (_, d) => d is None,
            },
    {
        match self {
            Status::RateLimited { retry_after_ms: Some(ms) } => Some(Interval::from_millis(*ms)),
            _ => None,
        }
    }

    pub fn is_available(&self) -> (yes: bool)
        ensures
            yes == (self@ is Available),
    {
        matches!(self, Status::Available)
    }

    pub fn is_terminal_failure(&self) -> (yes: bool)
        ensures
            yes == (self@ is Error),
    {
        matches!(self, Status::Error { .. })
    }
}

/// A single (username, status) pair plus a wall-clock timestamp.
#[derive(Debug, PartialEq, Eq)]
pub struct CheckResult {
    pub username: String,
    pub status: Status,
    /// Unix seconds since epoch when the check finished. 0 means "unset".
    pub checked_at: u64,
}

/// A [`CheckResult`] with its texts as sequences of characters.
pub struct ResultView {
    pub username: Seq<char>,
    pub status: StatusView,
    pub checked_at: u64,
}

impl View for CheckResult {
    type V = ResultView;

    open spec fn view(&self) -> ResultView {
        ResultView {
            username: self.username@,
            status: self.status@,
            checked_at: self.checked_at,
        }
    }
}

/// The results with their texts as sequences of characters.
pub open spec fn result_views(results: Seq<CheckResult>) -> Seq<ResultView> {
    Seq::new(results.len(), |i: int| results[i]@)
}

impl Clone for CheckResult {
    fn clone(&self) -> (copy: Self)
        ensures
            copy@ == self@,
    {
        CheckResult {
            username: self.username.clone(),
            status: self.status.clone(),
            checked_at: self.checked_at,
        }
    }
}

impl ResultView {
    /// The console line for the result, without colors.
    pub open spec fn line(self) -> Seq<char> {
        match self.status {
            StatusView::Available => "[+] "@ + self.username + ": AVAILABLE"@,
            StatusView::Taken => "[-] "@ + self.username + ": taken"@,
            StatusView::Invalid { reason } => "[!] "@ + self.username + ": invalid ("@ + reason
                + ")"@,
            StatusView::RateLimited { retry_after_ms: Some(ms) } => "[?] "@ + self.username
                + ": rate limited (retry after "@ + seconds_text(ms) + "s)"@,
            StatusView::RateLimited { retry_after_ms: None } => "[?] "@ + self.username
                + ": rate limited"@,
            StatusView::Error { reason } => "[?] "@ + self.username + ": error ("@ + reason + ")"@,
        }
    }

    /// The text-log line for the result.
    pub open spec fn file_line(self) -> Seq<char> {
        let head = self.username + " - "@ + self.status.token();
        match self.status {
            StatusView::Invalid { reason } => head + ": "@ + reason,
            StatusView::Error { reason } => head + ": "@ + reason,
            StatusView::RateLimited { retry_after_ms: Some(ms) } => head + ": retry after "@
                + seconds_text(ms) + "s"@,
            _ => head,
        }
    }
}

impl CheckResult {
    /// A result of this moment.
    pub fn new(username: &str, status: Status) -> (result: Self)
        ensures
            result.username@ == username@,
            result.status == status,
    {
        CheckResult::at(username, status, now_secs())
    }

    /// A result of the given moment.
    pub fn at(username: &str, status: Status, checked_at: u64) -> (result: Self)
        ensures
            result.username@ == username@,
            result.status == status,
            result.checked_at == checked_at,
    {
        CheckResult { username: username.to_owned(), status, checked_at }
    }

    /// One-line console rendering (without colors), in the format that log
    /// scrapers know.
    pub fn format_line(&self) -> (line: String)
        ensures
            line@ == self@.line(),
    {
        proof {
            reveal_with_fuel(concatenation, 6);
        }
        let name = self.username.as_str();
        match &self.status {
            Status::Available => joined(&["[+] ", name, ": AVAILABLE"]),
            Status::Taken => joined(&["[-] ", name, ": taken"]),
            Status::Invalid { reason } => joined(
                &["[!] ", name, ": invalid (", reason.as_str(), ")"],
            ),
            Status::RateLimited { retry_after_ms } => match retry_after_ms {
                Some(ms) => {
                    let seconds = render_seconds(*ms);
                    joined(&["[?] ", name, ": rate limited (retry after ", seconds.as_str(), "s)"])
                },
                None => joined(&["[?] ", name, ": rate limited"]),
            },
            Status::Error { reason } => joined(
                &["[?] ", name, ": error (", reason.as_str(), ")"],
            ),
        }
    }

    /// One-line text-log rendering: `<name> - <STATUS>[: <reason>]`.
    pub fn format_file_line(&self) -> (line: String)
        ensures
            line@ == self@.file_line(),
    {
        proof {
            reveal_with_fuel(concatenation, 6);
        }
        let name = self.username.as_str();
        let token = self.status.token();
        match &self.status {
            Status::Invalid { reason } => joined(&[name, " - ", token, ": ", reason.as_str()]),
            Status::Error { reason } => joined(&[name, " - ", token, ": ", reason.as_str()]),
            Status::RateLimited { retry_after_ms: Some(ms) } => {
                let seconds = render_seconds(*ms);
                joined(&[name, " - ", token, ": retry after ", seconds.as_str(), "s"])
            },
            _ => joined(&[name, " - ", token]),
        }
    }
}

/// Each outcome has its own console line.
pub proof fn law_line_tells_the_outcome(result: ResultView)
    ensures
        match result.status {
            StatusView::Available => result.line() == "[+] "@ + result.username + ": AVAILABLE"@,
            StatusView::Taken => result.line() == "[-] "@ + result.username + ": taken"@,
            StatusView::Invalid { reason } => result.line() == "[!] "@ + result.username
                + ": invalid ("@ + reason + ")"@,
            StatusView::RateLimited { retry_after_ms: None } => result.line() == "[?] "@
                + result.username + ": rate limited"@,
            StatusView::RateLimited { retry_after_ms: Some(ms) } => result.line() == "[?] "@
                + result.username + ": rate limited (retry after "@ + seconds_text(ms) + "s)"@,
            StatusView::Error { reason } => result.line() == "[?] "@ + result.username
                + ": error ("@ + reason + ")"@,
        },
{
}

/// The text-log line is the name, the word for the outcome and what the outcome
/// carries, in full.
pub proof fn law_file_line_tells_the_outcome(result: ResultView)
    ensures
        match result.status {
            StatusView::Available => result.file_line() == result.username + " - "@ + "AVAILABLE"@,
            StatusView::Taken => result.file_line() == result.username + " - "@ + "TAKEN"@,
            StatusView::Invalid { reason } => result.file_line() == result.username + " - "@
                + "INVALID"@ + ": "@ + reason,
            StatusView::RateLimited { retry_after_ms: None } => result.file_line()
                == result.username + " - "@ + "RATE_LIMITED"@,
            StatusView::RateLimited { retry_after_ms: Some(ms) } => result.file_line()
                == result.username + " - "@ + "RATE_LIMITED"@ + ": retry after "@ + seconds_text(ms)
                + "s"@,
            StatusView::Error { reason } => result.file_line() == result.username + " - "@
                + "ERROR"@ + ": "@ + reason,
        },
{
}

/// Outcomes of different kinds never have the same text-log line for a name.
pub proof fn law_file_lines_tell_outcomes_apart(a: ResultView, b: ResultView)
    requires
        a.username == b.username,
        a.file_line() == b.file_line(),
    ensures
        a.status is Available == b.status is Available,
        a.status is Taken == b.status is Taken,
        a.status is Invalid == b.status is Invalid,
        a.status is RateLimited == b.status is RateLimited,
        a.status is Error == b.status is Error,
{
    reveal_strlit(" - ");
    reveal_strlit("AVAILABLE");
    reveal_strlit("TAKEN");
    reveal_strlit("INVALID");
    reveal_strlit("RATE_LIMITED");
    reveal_strlit("ERROR");
    let at = a.username.len() + 3;
    assert(a.file_line()[at as int] == a.status.token()[0]);
    assert(b.file_line()[at as int] == b.status.token()[0]);
}

/// Each outcome has its own word, and a rejection and a failure alone come with a
/// reason, the one that was given.
pub proof fn law_word_and_reason_of_an_outcome(status: StatusView)
    ensures
        status is Available ==> status.token() == "AVAILABLE"@ && status.reason() is None,
        status is Taken ==> status.token() == "TAKEN"@ && status.reason() is None,
        status is RateLimited ==> status.token() == "RATE_LIMITED"@ && status.reason() is None,
        status matches StatusView::Invalid { reason } ==> status.token() == "INVALID"@
            && status.reason() == Some(reason),
        status matches StatusView::Error { reason } ==> status.token() == "ERROR"@
            && status.reason() == Some(reason),
{
}

} // verus!
