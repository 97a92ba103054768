//! Decisions of the checker for the public username-attempt endpoint.
//!
//! The endpoint is unauthenticated and is what the web client itself calls while
//! a user is picking a new handle:
//!
//! ```text
//! POST https://discord.com/api/v9/unique-username/username-attempt-unauthed
//! Content-Type: application/json
//! {"username": "<name>"}
//! ```
//!
//! On 200 the response body is `{"taken": true|false}`. Validation errors come
//! back as 400/422 with a JSON body; rate limiting as 429 with an optional
//! `Retry-After` header / `retry_after` body field.
//!
//! Failures are folded into [`Status`] variants, so batch loops keep flowing.
//! Requests, sleeps and bodies are left to the caller: [`Checker`] says what to
//! do next, and is told what came of it.
use vstd::prelude::*;
use vstd::string::*;

use crate::interval::Interval;
use crate::json::{parse_json, Json};
#[allow(unused_imports)]
use crate::json::{find, json_text, Tree};
use crate::pacing::Pacer;
use crate::result::{CheckResult, Status};
#[allow(unused_imports)]
use crate::result::{result_views, ResultView, StatusView};
use crate::seconds::seconds_to_millis;
#[allow(unused_imports)]
use crate::seconds::millis_of_seconds;
use crate::text::{chars_of, decimal_text, join, joined, string_of, trim};
#[allow(unused_imports)]
use crate::text::{
    concatenation, decimal, joined_by, law_trimming_cuts_whitespace_off, lemma_views_push,
    trimmed, views, whitespace,
};

verus! {

/// The first `n` characters of `s` and an ellipsis, where `s` is longer than that.
pub open spec fn clipped(s: Seq<char>, n: nat) -> Seq<char> {
    if s.len() <= n {
        s
    } else {
        s.take(n as int).push('…')
    }
}

/// Shortens `s` to `n` characters.
pub fn clip(s: &str, n: usize) -> (clip: String)
    ensures
        clip@ == clipped(s@, n as nat),
{
    let chars = chars_of(s);
    if chars.len() <= n {
        s.to_owned()
    } else {
        let mut clip = string_of(&chars, 0, n);
        clip.push('…');
        assert(clip@ =~= clipped(s@, n as nat));
        clip
    }
}

/// The message of one entry of an error list: the string member `message` of an
/// object, or the only item of a list of one string.
pub open spec fn entry_message(entry: Tree) -> Option<Seq<char>> {
    match entry {
        Tree::Object(members) => match find(members, "message"@) {
            Some(Tree::Str(message)) => Some(message),
            _ => None,
        },
        Tree::Array(items) => if items.len() == 1 {
            match items[0] {
                Tree::Str(message) => Some(message),
                _ => None,
            }
        } else {
            None
        },
        _ => None,
    }
}

/// The messages in the error list of one field, each after the field's name.
pub open spec fn entry_messages(field: Seq<char>, entries: Seq<Tree>) -> Seq<Seq<char>>
    decreases entries.len(),
{
    if entries.len() == 0 {
        seq![]
    } else {
        let before = entry_messages(field, entries.drop_last());
        match entry_message(entries.last()) {
            Some(message) => before.push(field + ": "@ + message),
            None => before,
        }
    }
}

/// The messages of one field of an error object: those in its list `_errors`.
pub open spec fn field_messages(field: Seq<char>, payload: Tree) -> Seq<Seq<char>> {
    match payload.member("_errors"@) {
        Some(Tree::Array(entries)) => entry_messages(field, entries),
        _ => seq![],
    }
}

/// The messages of all fields of an error object, in its order.
pub open spec fn all_field_messages(fields: Seq<(Seq<char>, Tree)>) -> Seq<Seq<char>>
    decreases fields.len(),
{
    if fields.len() == 0 {
        seq![]
    } else {
        all_field_messages(fields.drop_last()) + field_messages(fields.last().0, fields.last().1)
    }
}

/// The reason that an error document gives: the messages of its fields, and
/// where there are none its own message.
pub open spec fn error_reason(document: Tree) -> Option<Seq<char>> {
    let messages = match document.member("errors"@) {
        Some(Tree::Object(fields)) => all_field_messages(fields),
        _ => seq![],
    };
    if messages.len() > 0 {
        Some(joined_by(messages, "; "@))
    } else {
        match document.member("message"@) {
            Some(Tree::Str(message)) => Some(message),
            _ => None,
        }
    }
}

/// The message of one entry of an error list.
fn message_of(entry: &Json) -> (message: Option<&str>)
    ensures
        match message {
            Some(text) => entry_message(entry.tree()) == Some(text@),
            None => entry_message(entry.tree()) is None,
        },
{
    match entry {
        Json::Object(_) => match entry.get("message") {
            Some(Json::Str(text)) => Some(text.as_str()),
            _ => None,
        },
        Json::Array(items) => {
            assert(items@.len() == 1 ==> entry.tree()->Array_0[0] == items@[0].tree());
            if items.len() == 1 {
                match &items[0] {
                    Json::Str(text) => Some(text.as_str()),
                    _ => None,
                }
            } else {
                None
            }
        },
        _ => None,
    }
}

/// Appends the messages of one field of an error object to `messages`.
fn push_field_messages(field: &str, payload: &Json, messages: &mut Vec<String>)
    ensures
        views(final(messages)@) == views(old(messages)@) + field_messages(field@, payload.tree()),
{
    let ghost before = views(messages@);
    if let Some(Json::Array(entries)) = payload.get("_errors") {
        let ghost trees = payload.tree().member("_errors"@).unwrap()->Array_0;
        let mut i: usize = 0;
        assert(views(messages@) =~= before + entry_messages(field@, trees.take(0)));
        while i < entries.len()
            invariant
                i <= entries@.len() == trees.len(),
                forall|k: int| 0 <= k < trees.len() ==> #[trigger] trees[k] == entries@[k].tree(),
                views(messages@) == before + entry_messages(field@, trees.take(i as int)),
            decreases entries@.len() - i,
        {
            assert(trees.take(i + 1).drop_last() =~= trees.take(i as int));
            assert(trees.take(i + 1).last() == entries@[i as int].tree());
            if let Some(message) = message_of(&entries[i]) {
                proof {
                    reveal_with_fuel(concatenation, 3);
                }
                let text = joined(&[field, ": ", message]);
                proof {
                    lemma_views_push(messages@, text);
                }
                messages.push(text);
            }
            i = i + 1;
            assert(views(messages@) =~= before + entry_messages(field@, trees.take(i as int)));
        }
        assert(trees.take(i as int) =~= trees);
    } else {
        assert(views(messages@) =~= before + field_messages(field@, payload.tree()));
    }
}

/// The reason that an error response gives, where it gives one.
pub fn extract_error_reason(value: &Json) -> (reason: Option<String>)
    ensures
        match reason {
            Some(text) => error_reason(value.tree()) == Some(text@),
            None => error_reason(value.tree()) is None,
        },
{
    let mut messages: Vec<String> = Vec::new();
    assert(views(messages@) =~= seq![]);
    if let Some(Json::Object(fields)) = value.get("errors") {
        let ghost trees = value.tree().member("errors"@).unwrap()->Object_0;
        let mut i: usize = 0;
        assert(views(messages@) =~= all_field_messages(trees.take(0)));
        while i < fields.len()
            invariant
                i <= fields@.len() == trees.len(),
                forall|k: int|
                    0 <= k < trees.len() ==> #[trigger] trees[k] == (
                        fields@[k].0@,
                        fields@[k].1.tree(),
                    ),
                views(messages@) == all_field_messages(trees.take(i as int)),
            decreases fields@.len() - i,
        {
            assert(trees.take(i + 1).drop_last() =~= trees.take(i as int));
            assert(trees.take(i + 1).last() == trees[i as int]);
            push_field_messages(fields[i].0.as_str(), &fields[i].1, &mut messages);
            i = i + 1;
        }
        assert(trees.take(i as int) =~= trees);
    }
    if messages.len() > 0 {
        return Some(join(&messages, "; "));
    }
    match value.get("message") {
        Some(Json::Str(text)) => Some(text.clone()),
        _ => None,
    }
}

/// The answer to whether a name is taken, in the body of a successful response.
pub open spec fn taken_flag(document: Option<Tree>) -> Option<bool> {
    match document {
        Some(tree) => match tree.member("taken"@) {
            Some(Tree::Bool(taken)) => Some(taken),
            _ => None,
        },
        None => None,
    }
}

/// The milliseconds to wait, in the body of a rate-limit response.
pub open spec fn body_retry_after(document: Option<Tree>) -> Option<u64> {
    match document {
        Some(tree) => match tree.member("retry_after"@) {
            Some(Tree::Number { bits: Some(bits), .. }) => Some(millis_of_seconds(bits)),
            _ => None,
        },
        None => None,
    }
}

/// The outcome that a response stands for: its status code, its body, and the
/// JSON document that the body spells.
pub open spec fn interpretation(code: u16, body: Seq<char>, document: Option<Tree>) -> StatusView {
    if code == 200 {
        match taken_flag(document) {
            Some(true) => StatusView::Taken,
            Some(false) => StatusView::Available,
            None => StatusView::Error {
                reason: "HTTP 200, unexpected body: "@ + clipped(body, 200),
            },
        }
    } else if code == 429 {
        StatusView::RateLimited { retry_after_ms: body_retry_after(document) }
    } else {
        let stated = match document {
            Some(tree) => error_reason(tree),
            None => None,
        };
        let reason = match stated {
            Some(text) => text,
            None => "HTTP "@ + decimal(code as nat),
        };
        if code == 400 || code == 422 {
            StatusView::Invalid { reason }
        } else {
            StatusView::Error { reason }
        }
    }
}

/// The outcome that a response stands for, given the document in its body.
pub fn interpret_document(code: u16, body: &str, document: &Option<Json>) -> (status: Status)
    ensures
        status@ == interpretation(
            code,
            body@,
            match document {
                Some(json) => Some(json.tree()),
                None => None,
            },
        ),
{
    proof {
        reveal_with_fuel(concatenation, 2);
    }
    if code == 200 {
        if let Some(json) = document {
            if let Some(Json::Bool(taken)) = json.get("taken") {
                return if *taken {
                    Status::Taken
                } else {
                    Status::Available
                };
            }
        }
        let shown = clip(body, 200);
        return Status::Error { reason: joined(&["HTTP 200, unexpected body: ", shown.as_str()]) };
    }
    if code == 429 {
        if let Some(json) = document {
            if let Some(Json::Number { bits: Some(bits), .. }) = json.get("retry_after") {
                return Status::RateLimited { retry_after_ms: Some(seconds_to_millis(*bits)) };
            }
        }
        return Status::RateLimited { retry_after_ms: None };
    }
    let stated: Option<String> = match document {
        Some(json) => extract_error_reason(json),
        None => None,
    };
    let reason: String = match stated {
        Some(text) => text,
        None => {
            let number = decimal_text(code as u64);
            joined(&["HTTP ", number.as_str()])
        },
    };
    if code == 400 || code == 422 {
        Status::Invalid { reason }
    } else {
        Status::Error { reason }
    }
}

/// The result of a check for which a response with this status code and body
/// came back.
pub fn interpret_response(username: &str, code: u16, body: &str) -> (result: CheckResult)
    ensures
        result.username@ == username@,
        result.status@ == interpretation(code, body@, json_text(body@)),
{
    let document = parse_json(body);
    CheckResult::new(username, interpret_document(code, body, &document))
}

/// The wait that a `Retry-After` header asks for, given the number of seconds in
/// it by its `binary64` bit pattern.
pub fn parse_retry_after(seconds: Option<u64>) -> (wait: Option<Interval>)
    ensures
        match (seconds, wait) {
            (Some(bits), Some(d)) => d@ == millis_of_seconds(bits) * 1_000_000,
            (None, None) => true,
            _ => false,
        },
{
    match seconds {
        Some(bits) => Some(Interval::from_millis(seconds_to_millis(bits))),
        None => None,
    }
}

/// Tunables for a [`Checker`] / batch run.
#[derive(Debug)]
pub struct CheckerConfig {
    /// Maximum simultaneous in-flight HTTP requests.
    pub workers: usize,
    /// Minimum delay between task starts. Helpful for polite throttling.
    pub delay: Interval,
    /// Per-request timeout for HTTP I/O.
    pub timeout: Interval,
    /// If a 429 quotes a Retry-After no longer than this, auto-retry once.
    pub max_auto_retry_after: Interval,
}

impl Clone for CheckerConfig {
    fn clone(&self) -> (copy: Self)
        ensures
            copy == *self,
    {
        CheckerConfig {
            workers: self.workers,
            delay: self.delay,
            timeout: self.timeout,
            max_auto_retry_after: self.max_auto_retry_after,
        }
    }
}

impl Default for CheckerConfig {
    fn default() -> (config: Self)
        ensures
            config.workers == 8,
            config.delay@ == 0,
            config.timeout@ == 10_000_000_000,
            config.max_auto_retry_after@ == 10_000_000_000,
    {
        CheckerConfig {
            workers: 8,
            delay: Interval::from_millis(0),
            timeout: Interval::from_secs(10),
            max_auto_retry_after: Interval::from_secs(10),
        }
    }
}

/// A request for one username.
#[derive(Debug, PartialEq, Eq)]
pub struct Attempt {
    /// The name to ask for.
    pub username: String,
    /// Whether the request repeats one that was answered by a rate limit.
    pub retried: bool,
}

/// What to do next for a check.
#[derive(Debug, PartialEq, Eq)]
pub enum Step {
    /// Send the request.
    Send(Attempt),
    /// Sleep, then send the request.
    WaitThenSend(Interval, Attempt),
    /// Read the body of the response.
    ReadBody(Attempt),
    /// The check is over.
    Done(CheckResult),
}

/// A [`Step`] with its texts as sequences of characters, its wait in nanoseconds
/// and without the timestamp of a result.
pub enum StepView {
    Send { username: Seq<char>, retried: bool },
    WaitThenSend { wait: nat, username: Seq<char>, retried: bool },
    ReadBody { username: Seq<char>, retried: bool },
    Done { username: Seq<char>, status: StatusView },
}

impl View for Step {
    type V = StepView;

    open spec fn view(&self) -> StepView {
        match self {
            Step::Send(attempt) => StepView::Send {
                username: attempt.username@,
                retried: attempt.retried,
            },
            Step::WaitThenSend(wait, attempt) => StepView::WaitThenSend {
                wait: wait@,
                username: attempt.username@,
                retried: attempt.retried,
            },
            Step::ReadBody(attempt) => StepView::ReadBody {
                username: attempt.username@,
                retried: attempt.retried,
            },
            Step::Done(result) => StepView::Done {
                username: result.username@,
                status: result.status@,
            },
        }
    }
}

/// The first step of a check: the name is trimmed, and one that is then empty is
/// rejected without a request.
pub open spec fn first_step(username: Seq<char>) -> StepView {
    let name = trimmed(username);
    if name.len() == 0 {
        StepView::Done {
            username: seq![],
            status: StatusView::Invalid { reason: "empty username"@ },
        }
    } else {
        StepView::Send { username: name, retried: false }
    }
}

/// The whole milliseconds of a wait, as a 64-bit number.
pub open spec fn wait_millis(wait: nat) -> u64 {
    (wait / 1_000_000 % 0x1_0000_0000_0000_0000) as u64
}

/// The step that follows a response: a rate limit whose header asks for a short
/// enough wait is answered by one more request, and one whose header asks for a
/// longer wait, or that comes again, ends the check. A rate limit without such a
/// header has its body read for the hint there, as has what is no rate limit.
/// `wait` and `longest_wait` are in nanoseconds.
pub open spec fn next_step(
    longest_wait: nat,
    username: Seq<char>,
    retried: bool,
    code: u16,
    wait: Option<nat>,
) -> StepView {
    if code != 429 {
        StepView::ReadBody { username, retried }
    } else {
        match wait {
            Some(d) => if !retried && d <= longest_wait {
                StepView::WaitThenSend { wait: d, username, retried: true }
            } else {
                StepView::Done {
                    username,
                    status: StatusView::RateLimited { retry_after_ms: Some(wait_millis(d)) },
                }
            },
            None => StepView::ReadBody { username, retried },
        }
    }
}

/// The outcome of a response whose body cannot be read: a rate limit is one all the
/// same, only without a hint.
pub open spec fn unreadable(code: u16, error: Seq<char>) -> StatusView {
    if code == 429 {
        StatusView::RateLimited { retry_after_ms: None }
    } else {
        StatusView::Error { reason: "network error: "@ + error }
    }
}

/// The decisions of a username check.
#[derive(Debug)]
pub struct Checker {
    config: CheckerConfig,
}

impl Checker {
    /// The configuration of this checker.
    pub closed spec fn configuration(&self) -> CheckerConfig {
        self.config
    }

    pub fn new(config: CheckerConfig) -> (checker: Self)
        ensures
            checker.configuration() == config,
    {
        Checker { config }
    }

    pub fn config(&self) -> (config: &CheckerConfig)
        ensures
            *config == self.configuration(),
    {
        &self.config
    }

    /// Starts the check of a single username.
    pub fn check(&self, username: &str) -> (step: Step)
        ensures
            step@ == first_step(username@),
    {
        let name = trim(username);
        if name.as_str().is_empty() {
            let status = Status::Invalid { reason: "empty username".to_owned() };
            let result = CheckResult::new("", status);
            proof {
                reveal_strlit("");
                assert(""@ =~= seq![]);
            }
            Step::Done(result)
        } else {
            Step::Send(Attempt { username: name, retried: false })
        }
    }

    /// Goes on after a response to `attempt`, given its status code and the wait
    /// that its `Retry-After` header asks for.
    pub fn on_response(&self, attempt: Attempt, code: u16, wait: Option<Interval>) -> (step: Step)
        ensures
            step@ == next_step(
                self.configuration().max_auto_retry_after@,
                attempt.username@,
                attempt.retried,
                code,
                match wait {
                    Some(d) => Some(d@),
                    None => None,
                },
            ),
    {
        if code != 429 {
            return Step::ReadBody(attempt);
        }
        match wait {
            Some(d) => {
                if !attempt.retried && d.at_most(&self.config.max_auto_retry_after) {
                    return Step::WaitThenSend(
                        d,
                        Attempt { username: attempt.username, retried: true },
                    );
                }
                let ms: u64 = (d.as_millis() % 0x1_0000_0000_0000_0000) as u64;
                let status = Status::RateLimited { retry_after_ms: Some(ms) };
                Step::Done(CheckResult::new(attempt.username.as_str(), status))
            },
            None => Step::ReadBody(attempt),
        }
    }

    /// Ends the check with the body of the response to `attempt`.
    pub fn on_body(&self, attempt: &Attempt, code: u16, body: &str) -> (result: CheckResult)
        ensures
            result.username@ == attempt.username@,
            result.status@ == interpretation(code, body@, json_text(body@)),
    {
        interpret_response(attempt.username.as_str(), code, body)
    }

    /// Ends the check after reading the body of the response to `attempt` has
    /// failed.
    pub fn on_unreadable_body(&self, attempt: &Attempt, code: u16, error: &str) -> (result:
        CheckResult)
        ensures
            result.username@ == attempt.username@,
            result.status@ == unreadable(code, error@),
    {
        if code == 429 {
            let status = Status::RateLimited { retry_after_ms: None };
            CheckResult::new(attempt.username.as_str(), status)
        } else {
            self.on_failure(attempt, error)
        }
    }

    /// Ends the check after the request has failed.
    pub fn on_failure(&self, attempt: &Attempt, error: &str) -> (result: CheckResult)
        ensures
            result.username@ == attempt.username@,
            result.status@ == (StatusView::Error { reason: "network error: "@ + error@ }),
    {
        proof {
            reveal_with_fuel(concatenation, 2);
        }
        let status = Status::Error { reason: joined(&["network error: ", error]) };
        CheckResult::new(attempt.username.as_str(), status)
    }
}

/// A check sends at most two requests: it waits before the second for no longer
/// than configured, and after the second no third one follows.
pub proof fn law_at_most_one_retry(
    longest_wait: nat,
    username: Seq<char>,
    first_code: u16,
    first_wait: Option<nat>,
    second_code: u16,
    second_wait: Option<nat>,
)
    ensures
        match next_step(longest_wait, username, false, first_code, first_wait) {
            StepView::WaitThenSend { wait, username: name, retried } => {
                &&& first_code == 429
                &&& first_wait == Some(wait)
                &&& wait <= longest_wait
                &&& name == username
                &&& retried
                &&& !(next_step(longest_wait, name, retried, second_code, second_wait)
                    is WaitThenSend)
                &&& !(next_step(longest_wait, name, retried, second_code, second_wait) is Send)
            },
            StepView::Send { .. } => false,
            StepView::ReadBody { .. } => first_code != 429 || first_wait is None,
            StepView::Done { status, .. } => first_code == 429 && status is RateLimited,
        },
{
}

/// A rate limit whose header asks for more than the longest wait is reported as it
/// came.
pub proof fn law_long_waits_surface(
    longest_wait: nat,
    username: Seq<char>,
    retried: bool,
    wait: nat,
)
    requires
        wait > longest_wait,
    ensures
        next_step(longest_wait, username, retried, 429, Some(wait)) == (StepView::Done {
            username,
            status: StatusView::RateLimited { retry_after_ms: Some(wait_millis(wait)) },
        }),
{
}

/// The hint of a rate limit reaches the result: a rate limit that is not retried is
/// reported with the wait in its header, and where that names none with the wait
/// in its body. `header_ms` is the wait in the header, in milliseconds.
pub proof fn law_hint_reaches_the_result(
    longest_wait: nat,
    username: Seq<char>,
    retried: bool,
    header_ms: Option<u64>,
    body: Seq<char>,
    document: Option<Tree>,
)
    ensures
        ({
            let wait = match header_ms {
                Some(ms) => Some((ms * 1_000_000) as nat),
                None => None,
            };
            match next_step(longest_wait, username, retried, 429, wait) {
                StepView::Done { username: name, status } => {
                    &&& header_ms is Some
                    &&& name == username
                    &&& status == (StatusView::RateLimited { retry_after_ms: header_ms })
                },
                StepView::ReadBody { username: name, .. } => {
                    &&& header_ms is None
                    &&& name == username
                    &&& interpretation(429, body, document) == (StatusView::RateLimited {
                        retry_after_ms: body_retry_after(document),
                    })
                },
                StepView::WaitThenSend { .. } => !retried && wait.unwrap() <= longest_wait,
                StepView::Send { .. } => false,
            }
        }),
{
    if let Some(ms) = header_ms {
        assert((ms * 1_000_000) as nat / 1_000_000 == ms);
    }
}

/// A 429 that ends a check is reported as a rate limit, whatever its header says and
/// whether or not its body can be read.
pub proof fn law_rate_limit_is_reported(
    longest_wait: nat,
    username: Seq<char>,
    retried: bool,
    wait: Option<nat>,
    body: Seq<char>,
    document: Option<Tree>,
    error: Seq<char>,
)
    ensures
        match next_step(longest_wait, username, retried, 429, wait) {
            StepView::Done { status, .. } => status is RateLimited,
            StepView::ReadBody { .. } => interpretation(429, body, document) is RateLimited
                && unreadable(429, error) is RateLimited,
            _ => true,
        },
{
}

/// Only a 200 whose body answers the question says that a name is available or
/// taken; a rejected name is reported by 400 and 422 alone, a rate limit by 429
/// alone, and all else is an error.
pub proof fn law_outcome_by_code(code: u16, body: Seq<char>, document: Option<Tree>)
    ensures
        interpretation(code, body, document) is Available <==> code == 200 && taken_flag(document)
            == Some(false),
        interpretation(code, body, document) is Taken <==> code == 200 && taken_flag(document)
            == Some(true),
        interpretation(code, body, document) is Invalid <==> code == 400 || code == 422,
        interpretation(code, body, document) is RateLimited <==> code == 429,
        interpretation(code, body, document) is Error <==> (code == 200 && taken_flag(document)
            is None) || (code != 200 && code != 400 && code != 422 && code != 429),
{
}

impl Checker {
    /// Plans a batch of checks, one task for each username.
    pub fn run_batch(&self, usernames: Vec<String>) -> (batch: Batch)
        ensures
            batch.usernames() == views(usernames@),
            batch.workers() == {
                let asked = self.configuration().workers;
                let at_least_one: nat = if asked < 1 {
                    1
                } else {
                    asked as nat
                };
                if at_least_one < usernames@.len() {
                    at_least_one
                } else {
                    usernames@.len()
                }
            },
            batch.workers() == worker_count(
                self.configuration().workers as nat,
                usernames@.len(),
            ),
            batch.slots() == Seq::new(usernames@.len(), |i: int| None::<ResultView>),
    {
        let jobs: usize = usernames.len();
        let asked: usize = if self.config.workers < 1 {
            1
        } else {
            self.config.workers
        };
        let workers: usize = if asked < jobs {
            asked
        } else {
            jobs
        };
        let mut slots: Vec<Option<CheckResult>> = Vec::new();
        let mut i: usize = 0;
        while i < jobs
            invariant
                i <= jobs,
                slots@.len() == i,
                forall|k: int| 0 <= k < i ==> (#[trigger] slots@[k]) is None,
            decreases jobs - i,
        {
            slots.push(None);
            i = i + 1;
        }
        let batch = Batch { usernames, workers, slots };
        assert(batch.slots() =~= Seq::new(jobs as nat, |i: int| None::<ResultView>));
        batch
    }

    /// The pacer for the tasks of a batch.
    pub fn pacer(&self) -> (pacer: Pacer)
        ensures
            pacer.delay() == self.configuration().delay@,
            pacer@ == Seq::<nat>::empty(),
    {
        Pacer::new(self.config.delay)
    }
}

/// A batch of checks: the usernames, and a slot for the result of each.
#[derive(Debug)]
pub struct Batch {
    usernames: Vec<String>,
    workers: usize,
    slots: Vec<Option<CheckResult>>,
}

/// The results in the slots that hold one, in the order of the slots.
pub open spec fn filled(slots: Seq<Option<ResultView>>) -> Seq<ResultView>
    decreases slots.len(),
{
    if slots.len() == 0 {
        seq![]
    } else {
        let before = filled(slots.drop_last());
        match slots.last() {
            Some(result) => before.push(result),
            None => before,
        }
    }
}

/// An optional result with its texts as sequences of characters.
pub open spec fn slot_view(slot: Option<CheckResult>) -> Option<ResultView> {
    match slot {
        Some(result) => Some(result@),
        None => None,
    }
}

impl Batch {
    /// The names to check, in input order.
    pub closed spec fn usernames(&self) -> Seq<Seq<char>> {
        views(self.usernames@)
    }

    /// The number of checks that may run at a time.
    pub closed spec fn workers(&self) -> nat {
        self.workers as nat
    }

    /// What has come back so far, one slot for each name.
    pub closed spec fn slots(&self) -> Seq<Option<ResultView>> {
        Seq::new(self.slots@.len(), |i: int| slot_view(self.slots@[i]))
    }

    /// The number of checks that may run at a time.
    pub fn worker_limit(&self) -> (workers: usize)
        ensures
            workers == self.workers(),
    {
        self.workers
    }

    /// The names to check, in input order.
    pub fn names(&self) -> (names: &Vec<String>)
        ensures
            views(names@) == self.usernames(),
    {
        &self.usernames
    }

    /// Puts the result of the task at position `idx` in its slot. A task that was
    /// cancelled brings no result, and an unknown position is ignored.
    pub fn record(&mut self, idx: usize, result: Option<CheckResult>)
        ensures
            final(self).usernames() == old(self).usernames(),
            final(self).workers() == old(self).workers(),
            final(self).slots() == match result {
                Some(r) => if idx < old(self).slots().len() {
                    old(self).slots().update(idx as int, Some(r@))
                } else {
                    old(self).slots()
                },
                None => old(self).slots(),
            },
            final(self).slots() == with_slot(old(self).slots(), idx as nat, slot_view(result)),
    {
        let ghost before = self.slots();
        if let Some(r) = result {
            if idx < self.slots.len() {
                let ghost view = r@;
                self.slots.set(idx, Some(r));
                assert(self.slots() =~= before.update(idx as int, Some(view)));
            }
        }
    }

    /// The results, in input order.
    pub fn finish(self) -> (results: Vec<CheckResult>)
        ensures
            result_views(results@) == filled(self.slots()),
    {
        let ghost all = self.slots();
        let mut results: Vec<CheckResult> = Vec::new();
        assert(result_views(results@) =~= filled(all.take(0)));
        for slot in it: self.slots
            invariant
                it.seq() == self.slots@,
                all == self.slots(),
                result_views(results@) == filled(all.take(it.index())),
        {
            let ghost at = it.index();
            let ghost before = results@;
            assert(all.take(at + 1).drop_last() =~= all.take(at));
            assert(all.take(at + 1).last() == slot_view(slot));
            if let Some(result) = slot {
                results.push(result);
                assert(result_views(results@) =~= result_views(before).push(result@));
            }
        }
        assert(all.take(all.len() as int) =~= all);
        results
    }
}

/// A batch in which every task brought a result returns the results in input
/// order, however they came in.
pub proof fn law_complete_batch_keeps_input_order(slots: Seq<Option<ResultView>>)
    requires
        forall|i: int| 0 <= i < slots.len() ==> (#[trigger] slots[i]) is Some,
    ensures
        filled(slots) == slots.map_values(|slot: Option<ResultView>| slot.unwrap()),
    decreases slots.len(),
{
    let all = slots.map_values(|slot: Option<ResultView>| slot.unwrap());
    if slots.len() > 0 {
        let init = slots.drop_last();
        assert forall|i: int| 0 <= i < init.len() implies (#[trigger] init[i]) is Some by {
            assert(init[i] == slots[i]);
        }
        law_complete_batch_keeps_input_order(init);
        assert(slots[slots.len() - 1] is Some);
        assert(filled(slots) =~= all);
    } else {
        assert(filled(slots) =~= all);
    }
}

/// The slots that hold a result, in order.
pub open spec fn filled_positions(slots: Seq<Option<ResultView>>) -> Seq<int>
    decreases slots.len(),
{
    if slots.len() == 0 {
        seq![]
    } else {
        let before = filled_positions(slots.drop_last());
        if slots.last() is Some {
            before.push(slots.len() - 1)
        } else {
            before
        }
    }
}

/// The results of a cancelled batch are those of its filled slots, in input
/// order: they stand at increasing positions, and no filled slot is left out.
pub proof fn law_partial_batch_keeps_input_order(slots: Seq<Option<ResultView>>)
    ensures
        filled(slots).len() == filled_positions(slots).len(),
        forall|i: int|
            0 <= i < filled(slots).len() ==> 0 <= #[trigger] filled_positions(slots)[i]
                < slots.len() && slots[filled_positions(slots)[i]] == Some(filled(slots)[i]),
        forall|i: int, j: int|
            0 <= i < j < filled(slots).len() ==> filled_positions(slots)[i] < filled_positions(
                slots,
            )[j],
        forall|k: int|
            0 <= k < slots.len() && (#[trigger] slots[k]) is Some ==> filled_positions(
                slots,
            ).contains(k),
    decreases slots.len(),
{
    if slots.len() > 0 {
        let init = slots.drop_last();
        law_partial_batch_keeps_input_order(init);
        let before = filled_positions(init);
        let after = filled_positions(slots);
        assert forall|i: int| 0 <= i < filled(slots).len() implies 0 <= #[trigger] after[i]
            < slots.len() && slots[after[i]] == Some(filled(slots)[i]) by {
            if i < before.len() {
                assert(after[i] == before[i]);
                assert(init[before[i]] == slots[before[i]]);
            }
        }
        assert forall|i: int, j: int| 0 <= i < j < filled(slots).len() implies after[i]
            < after[j] by {
            assert(after[i] == before[i]);
            if j < before.len() {
                assert(after[j] == before[j]);
            }
        }
        assert forall|k: int|
            0 <= k < slots.len() && (#[trigger] slots[k]) is Some implies after.contains(k) by {
            if k < slots.len() - 1 {
                assert(init[k] is Some);
                assert(before.contains(k));
                let i = choose|i: int| 0 <= i < before.len() && before[i] == k;
                assert(after[i] == k);
            } else {
                assert(after[after.len() - 1] == k);
            }
        }
    }
}

/// A response that is no rate limit never ends a check by itself: its body is read,
/// for the same name, whether or not the request was a second one and whatever its
/// header says.
pub proof fn law_answers_have_their_body_read(
    longest_wait: nat,
    username: Seq<char>,
    retried: bool,
    code: u16,
    wait: Option<nat>,
)
    requires
        code != 429,
    ensures
        next_step(longest_wait, username, retried, code, wait) == (StepView::ReadBody {
            username,
            retried,
        }),
{
}

/// A first rate limit that asks for no more than the longest wait is waited for, as
/// long as it asks, and the same name is asked for again.
pub proof fn law_short_waits_are_retried(longest_wait: nat, username: Seq<char>, wait: nat)
    requires
        wait <= longest_wait,
    ensures
        next_step(longest_wait, username, false, 429, Some(wait)) == (StepView::WaitThenSend {
            wait,
            username,
            retried: true,
        }),
{
}

/// What the endpoint answers: the status code, the wait in the header in
/// nanoseconds, the body, and the JSON document that the body spells.
pub struct Answer {
    pub code: u16,
    pub wait: Option<nat>,
    pub body: Seq<char>,
    pub document: Option<Tree>,
}

/// What is reported for a name when the first request is answered by `first` and a
/// second one, where there is one, by `second`: the steps are carried out one after
/// the other.
pub open spec fn reported(
    longest_wait: nat,
    username: Seq<char>,
    first: Answer,
    second: Answer,
) -> Option<StatusView> {
    match first_step(username) {
        StepView::Done { status, .. } => Some(status),
        StepView::Send { username: name, retried } => match next_step(
            longest_wait,
            name,
            retried,
            first.code,
            first.wait,
        ) {
            StepView::Done { status, .. } => Some(status),
            StepView::ReadBody { .. } => Some(
                interpretation(first.code, first.body, first.document),
            ),
            StepView::WaitThenSend { username: again, retried: repeated, .. } => match next_step(
                longest_wait,
                again,
                repeated,
                second.code,
                second.wait,
            ) {
                StepView::Done { status, .. } => Some(status),
                StepView::ReadBody { .. } => Some(
                    interpretation(second.code, second.body, second.document),
                ),
                _ => None,
            },
            StepView::Send { .. } => None,
        },
        _ => None,
    }
}

/// From end to end: a name of whitespace alone is invalid. Otherwise the answer to
/// the first request decides, unless that is a rate limit with a wait within the
/// limit; then the answer to the second one does. An answer that is no rate limit is
/// reported by what it means, and a rate limit as one, with the wait in its header or
/// else in its body.
pub proof fn law_last_answer_is_reported(
    longest_wait: nat,
    username: Seq<char>,
    first: Answer,
    second: Answer,
)
    ensures
        ({
            let blank = forall|i: int| 0 <= i < username.len() ==> whitespace(#[trigger] username[i]);
            let retried = first.code == 429 && first.wait is Some && first.wait.unwrap()
                <= longest_wait;
            let last = if retried {
                second
            } else {
                first
            };
            reported(longest_wait, username, first, second) == if blank {
                Some(StatusView::Invalid { reason: "empty username"@ })
            } else if last.code == 429 {
                match last.wait {
                    Some(d) => Some(
                        StatusView::RateLimited { retry_after_ms: Some(wait_millis(d)) },
                    ),
                    None => Some(
                        StatusView::RateLimited { retry_after_ms: body_retry_after(last.document) },
                    ),
                }
            } else {
                Some(interpretation(last.code, last.body, last.document))
            }
        }),
{
    let (lo, hi) = law_trimming_cuts_whitespace_off(username);
    if lo < hi {
        assert(!whitespace(username[lo]));
    }
}

/// The name that is asked for is the one given, without the whitespace around it, and
/// it stays the same to the end.
pub proof fn law_name_is_kept(
    longest_wait: nat,
    username: Seq<char>,
    retried: bool,
    code: u16,
    wait: Option<nat>,
)
    ensures
        match first_step(username) {
            StepView::Send { username: name, retried: again } => name == trimmed(username)
                && name.len() > 0 && !again,
            StepView::Done { username: name, .. } => name.len() == 0 && trimmed(username).len()
                == 0,
            _ => false,
        },
        match next_step(longest_wait, username, retried, code, wait) {
            StepView::Send { username: name, .. } => name == username,
            StepView::WaitThenSend { username: name, .. } => name == username,
            StepView::ReadBody { username: name, retried: same } => name == username && same
                == retried,
            StepView::Done { username: name, .. } => name == username,
        },
{
}

/// The wait in a header is reported in whole milliseconds.
pub proof fn law_waits_are_reported_in_milliseconds(wait: nat)
    requires
        wait <= u64::MAX * 1_000_000,
    ensures
        wait_millis(wait) * 1_000_000 <= wait < (wait_millis(wait) + 1) * 1_000_000,
{
}

/// A long text is cut to its first `n` characters and an ellipsis, any other stays as
/// it is.
pub proof fn law_clipping_keeps_the_beginning(s: Seq<char>, n: nat)
    ensures
        s.len() <= n ==> clipped(s, n) == s,
        s.len() > n ==> clipped(s, n).len() == n + 1 && clipped(s, n)[n as int] == '…' && (forall|
            i: int,
        |
            0 <= i < n ==> #[trigger] clipped(s, n)[i] == s[i]),
{
}

/// A 200 whose document says whether the name is taken is reported as it says; one
/// without an answer is an error that shows the first 200 characters of the body.
pub proof fn law_answer_is_what_the_document_says(body: Seq<char>, document: Option<Tree>)
    ensures
        ({
            let answer = match document {
                Some(tree) => tree.member("taken"@),
                None => None,
            };
            let status = interpretation(200, body, document);
            &&& answer == Some(Tree::Bool(true)) ==> status == StatusView::Taken
            &&& answer == Some(Tree::Bool(false)) ==> status == StatusView::Available
            &&& !(answer matches Some(Tree::Bool(_))) ==> status == (StatusView::Error {
                reason: "HTTP 200, unexpected body: "@ + clipped(body, 200),
            })
        }),
{
}

/// A rejection and a failure come with the reason that the document gives, in full,
/// and where it gives none with the status code.
pub proof fn law_reason_is_given_in_full(code: u16, body: Seq<char>, document: Option<Tree>)
    requires
        code != 200,
        code != 429,
    ensures
        ({
            let reason = match document {
                Some(tree) => match error_reason(tree) {
                    Some(text) => text,
                    None => "HTTP "@ + decimal(code as nat),
                },
                None => "HTTP "@ + decimal(code as nat),
            };
            let status = interpretation(code, body, document);
            &&& code == 400 || code == 422 ==> status == (StatusView::Invalid { reason })
            &&& code != 400 && code != 422 ==> status == (StatusView::Error { reason })
        }),
{
}

/// The wait in a body is that of its member `retry_after`, where it is a number.
pub proof fn law_body_hint_is_its_member(tree: Tree, bits: u64)
    ensures
        tree.member("retry_after"@) matches Some(Tree::Number { bits: Some(b), .. }) && b == bits
            ==> body_retry_after(Some(tree)) == Some(millis_of_seconds(bits)),
        !(tree.member("retry_after"@) matches Some(Tree::Number { bits: Some(_), .. }))
            ==> body_retry_after(Some(tree)) is None,
        body_retry_after(None) is None,
{
}

/// A document without field errors gives its own message as the reason, and none
/// where it has no message.
pub proof fn law_own_message_is_the_fallback(document: Tree)
    requires
        !(document.member("errors"@) matches Some(Tree::Object(_))),
    ensures
        match document.member("message"@) {
            Some(Tree::Str(message)) => error_reason(document) == Some(message),
            _ => error_reason(document) is None,
        },
{
}

/// Field errors come before the document's own message: all their messages, joined.
pub proof fn law_field_errors_come_first(document: Tree, fields: Seq<(Seq<char>, Tree)>)
    requires
        document.member("errors"@) == Some(Tree::Object(fields)),
    ensures
        all_field_messages(fields).len() > 0 ==> error_reason(document) == Some(
            joined_by(all_field_messages(fields), "; "@),
        ),
        all_field_messages(fields).len() == 0 ==> match document.member("message"@) {
            Some(Tree::Str(message)) => error_reason(document) == Some(message),
            _ => error_reason(document) is None,
        },
{
}

/// Messages are listed field by field and entry by entry, in order, each after the
/// name of its field; a field without a list of errors and an entry without a message
/// add none.
pub proof fn law_messages_are_listed_in_order(
    a: Seq<(Seq<char>, Tree)>,
    b: Seq<(Seq<char>, Tree)>,
    field: Seq<char>,
    payload: Tree,
    first: Seq<Tree>,
    second: Seq<Tree>,
    entry: Tree,
)
    ensures
        all_field_messages(a + b) == all_field_messages(a) + all_field_messages(b),
        all_field_messages(seq![(field, payload)]) == match payload.member("_errors"@) {
            Some(Tree::Array(entries)) => entry_messages(field, entries),
            _ => seq![],
        },
        entry_messages(field, first + second) == entry_messages(field, first) + entry_messages(
            field,
            second,
        ),
        entry_messages(field, seq![entry]) == match entry.member("message"@) {
            Some(Tree::Str(message)) => seq![field + ": "@ + message],
            _ => match entry {
                Tree::Array(items) => if items.len() == 1 && items[0] is Str {
                    seq![field + ": "@ + items[0]->Str_0]
                } else {
                    seq![]
                },
                _ => seq![],
            },
        },
    decreases b.len() + second.len(),
{
    let one = seq![(field, payload)];
    assert(one.drop_last() =~= seq![]);
    assert(all_field_messages(one.drop_last()) == Seq::<Seq<char>>::empty());
    assert(all_field_messages(one) =~= field_messages(field, payload));
    let single = seq![entry];
    assert(single.drop_last() =~= seq![]);
    assert(entry_messages(field, single.drop_last()) == Seq::<Seq<char>>::empty());
    if b.len() > 0 {
        law_messages_are_listed_in_order(a, b.drop_last(), field, payload, first, seq![], entry);
        assert((a + b).drop_last() =~= a + b.drop_last());
        assert(all_field_messages(a + b) =~= all_field_messages(a) + all_field_messages(b));
    } else {
        assert(a + b =~= a);
        assert(all_field_messages(a) + all_field_messages(b) =~= all_field_messages(a));
    }
    if second.len() > 0 {
        law_messages_are_listed_in_order(
            seq![],
            seq![],
            field,
            payload,
            first,
            second.drop_last(),
            entry,
        );
        assert((first + second).drop_last() =~= first + second.drop_last());
        assert(entry_messages(field, first + second) =~= entry_messages(field, first)
            + entry_messages(field, second));
    } else {
        assert(first + second =~= first);
        assert(entry_messages(field, first) + entry_messages(field, second) =~= entry_messages(
            field,
            first,
        ));
    }
}

/// A response whose body cannot be read is a rate limit without a hint where its code
/// says so, and else an error that says why.
pub proof fn law_unreadable_bodies(code: u16, error: Seq<char>)
    ensures
        code == 429 ==> unreadable(code, error) == (StatusView::RateLimited {
            retry_after_ms: None,
        }),
        code != 429 ==> unreadable(code, error) == (StatusView::Error {
            reason: "network error: "@ + error,
        }),
{
}

/// The number of checks that may run at a time, of `jobs` checks for which `asked`
/// workers were asked for.
pub open spec fn worker_count(asked: nat, jobs: nat) -> nat {
    let at_least_one = if asked < 1 {
        1
    } else {
        asked
    };
    if at_least_one < jobs {
        at_least_one
    } else {
        jobs
    }
}

/// No more checks run at a time than were asked for, and as many as that and the
/// number of checks allow; one runs in any case.
pub proof fn law_workers_are_used_up_to_the_limit(asked: nat, jobs: nat)
    ensures
        worker_count(asked, jobs) <= jobs,
        asked >= 1 ==> worker_count(asked, jobs) <= asked,
        jobs >= 1 ==> worker_count(asked, jobs) >= 1,
        asked <= jobs && asked >= 1 ==> worker_count(asked, jobs) == asked,
        asked >= jobs ==> worker_count(asked, jobs) == jobs,
{
}

/// The slots of a batch after the task at position `idx` has ended with `result`.
pub open spec fn with_slot(
    slots: Seq<Option<ResultView>>,
    idx: nat,
    result: Option<ResultView>,
) -> Seq<Option<ResultView>> {
    if result is Some && idx < slots.len() {
        slots.update(idx as int, result)
    } else {
        slots
    }
}

/// A result goes into the slot of its task and leaves all others alone; a task without
/// a result changes nothing.
pub proof fn law_results_go_into_their_slots(
    slots: Seq<Option<ResultView>>,
    idx: nat,
    result: Option<ResultView>,
    i: int,
)
    requires
        0 <= i < slots.len(),
    ensures
        with_slot(slots, idx, result).len() == slots.len(),
        with_slot(slots, idx, result)[i] == if i == idx && result is Some {
            result
        } else {
            slots[i]
        },
{
}

} // verus!
