//! Console lines as pieces of text with a style each.
use vstd::prelude::*;
use vstd::string::*;

use crate::counts::Counts;
use crate::result::{CheckResult, Status};
#[allow(unused_imports)]
use crate::result::{ResultView, StatusView};
use crate::seconds::render_seconds;
#[allow(unused_imports)]
use crate::seconds::seconds_text;
use crate::text::{decimal_text, joined};
#[allow(unused_imports)]
use crate::text::{concatenation, decimal};

verus! {

/// How a piece of text is shown.
#[derive(Debug, Clone, Copy, PartialEq, Eq, Structural)]
pub enum Paint {
    Plain,
    Bold,
    Dim,
    CyanBold,
    GreenBold,
    Red,
    RedDim,
    Yellow,
    Magenta,
}

/// A piece of text with its style.
#[derive(Debug, PartialEq, Eq)]
pub struct Segment {
    pub text: String,
    pub paint: Paint,
}

impl View for Segment {
    type V = (Seq<char>, Paint);

    open spec fn view(&self) -> (Seq<char>, Paint) {
        (self.text@, self.paint)
    }
}

/// The segments with their texts as sequences of characters.
pub open spec fn segment_views(segments: Seq<Segment>) -> Seq<(Seq<char>, Paint)> {
    Seq::new(segments.len(), |i: int| segments[i]@)
}

/// The text of a line without its styles.
pub open spec fn unstyled(segments: Seq<(Seq<char>, Paint)>) -> Seq<char>
    decreases segments.len(),
{
    if segments.len() == 0 {
        seq![]
    } else {
        unstyled(segments.drop_last()) + segments.last().0
    }
}

/// A piece of text in the given style.
pub fn segment(text: &str, paint: Paint) -> (segment: Segment)
    ensures
        segment@ == (text@, paint),
{
    Segment { text: text.to_owned(), paint }
}

impl ResultView {
    /// The console line for the result, in colors.
    pub open spec fn styled_line(self) -> Seq<(Seq<char>, Paint)> {
        let (mark, paint, word, detail) = match self.status {
            StatusView::Available => ("[+]"@, Paint::GreenBold, "AVAILABLE"@, seq![]),
            StatusView::Taken => ("[-]"@, Paint::Red, "taken"@, seq![]),
            StatusView::Invalid { reason } => (
                "[!]"@,
                Paint::Yellow,
                "invalid"@,
                " ("@ + reason + ")"@,
            ),
            StatusView::RateLimited { retry_after_ms: Some(ms) } => (
                "[?]"@,
                Paint::Magenta,
                "rate limited"@,
                " (retry after "@ + seconds_text(ms) + "s)"@,
            ),
            StatusView::RateLimited { retry_after_ms: None } => (
                "[?]"@,
                Paint::Magenta,
                "rate limited"@,
                seq![],
            ),
            StatusView::Error { reason } => (
                "[?]"@,
                Paint::RedDim,
                "error"@,
                " ("@ + reason + ")"@,
            ),
        };
        seq![
            (mark, paint),
            (" "@ + self.username + ": "@, Paint::Plain),
            (word, paint),
            (detail, Paint::Plain),
        ]
    }
}

/// Renders the console line for a result, in colors.
pub fn render_line(result: &CheckResult) -> (line: Vec<Segment>)
    ensures
        segment_views(line@) == result@.styled_line(),
{
    proof {
        reveal_with_fuel(concatenation, 3);
    }
    let (mark, paint, word): (&str, Paint, &str) = match &result.status {
        Status::Available => ("[+]", Paint::GreenBold, "AVAILABLE"),
        Status::Taken => ("[-]", Paint::Red, "taken"),
        Status::Invalid { .. } => ("[!]", Paint::Yellow, "invalid"),
        Status::RateLimited { .. } => ("[?]", Paint::Magenta, "rate limited"),
        Status::Error { .. } => ("[?]", Paint::RedDim, "error"),
    };
    let detail: String = match &result.status {
        Status::Invalid { reason } => joined(&[" (", reason.as_str(), ")"]),
        Status::Error { reason } => joined(&[" (", reason.as_str(), ")"]),
        Status::RateLimited { retry_after_ms: Some(ms) } => {
            let seconds = render_seconds(*ms);
            joined(&[" (retry after ", seconds.as_str(), "s)"])
        },
        _ => String::new(),
    };
    let name = joined(&[" ", result.username.as_str(), ": "]);
    let line = vec![
        segment(mark, paint),
        Segment { text: name, paint: Paint::Plain },
        segment(word, paint),
        Segment { text: detail, paint: Paint::Plain },
    ];
    assert(segment_views(line@) =~= result@.styled_line());
    line
}

/// Without its colors, the styled line reads like the plain one.
pub proof fn law_styled_line_reads_like_plain_line(result: ResultView)
    ensures
        unstyled(result.styled_line()) == result.line(),
{
    let line = result.styled_line();
    reveal_with_fuel(unstyled, 5);
    assert(line.drop_last().drop_last().drop_last().drop_last() =~= seq![]);
    assert(unstyled(line) =~= line[0].0 + line[1].0 + line[2].0 + line[3].0);
    reveal_strlit("[+]");
    reveal_strlit("[-]");
    reveal_strlit("[!]");
    reveal_strlit("[?]");
    reveal_strlit("[+] ");
    reveal_strlit("[-] ");
    reveal_strlit("[!] ");
    reveal_strlit("[?] ");
    reveal_strlit(" ");
    reveal_strlit(": ");
    reveal_strlit("AVAILABLE");
    reveal_strlit(": AVAILABLE");
    reveal_strlit("taken");
    reveal_strlit(": taken");
    reveal_strlit("invalid");
    reveal_strlit(" (");
    reveal_strlit(")");
    reveal_strlit(": invalid (");
    reveal_strlit("error");
    reveal_strlit(": error (");
    reveal_strlit("rate limited");
    reveal_strlit(": rate limited");
    reveal_strlit(" (retry after ");
    reveal_strlit(": rate limited (retry after ");
    reveal_strlit("s)");
    assert(unstyled(line) =~= result.line());
}

/// The closing line of a run: each count, in the color of its kind.
pub open spec fn summary_line(counts: Counts) -> Seq<(Seq<char>, Paint)> {
    seq![
        ("summary"@, Paint::Bold),
        (": "@, Paint::Plain),
        (decimal(counts.available as nat), Paint::GreenBold),
        (" available · "@, Paint::Plain),
        (decimal(counts.taken as nat), Paint::Red),
        (" taken · "@, Paint::Plain),
        (decimal(counts.invalid as nat), Paint::Yellow),
        (" invalid · "@, Paint::Plain),
        (decimal(counts.rate_limited as nat), Paint::Magenta),
        (" rate-limited · "@, Paint::Plain),
        (decimal(counts.errors as nat), Paint::RedDim),
        (" error"@, Paint::Plain),
    ]
}

/// A number in the given style.
fn number(n: usize, paint: Paint) -> (segment: Segment)
    ensures
        segment@ == (decimal(n as nat), paint),
{
    Segment { text: decimal_text(n as u64), paint }
}

impl Counts {
    /// Renders the closing line of a run.
    pub fn styled(&self) -> (line: Vec<Segment>)
        ensures
            segment_views(line@) == summary_line(*self),
    {
        let line = vec![
            segment("summary", Paint::Bold),
            segment(": ", Paint::Plain),
            number(self.available, Paint::GreenBold),
            segment(" available · ", Paint::Plain),
            number(self.taken, Paint::Red),
            segment(" taken · ", Paint::Plain),
            number(self.invalid, Paint::Yellow),
            segment(" invalid · ", Paint::Plain),
            number(self.rate_limited, Paint::Magenta),
            segment(" rate-limited · ", Paint::Plain),
            number(self.errors, Paint::RedDim),
            segment(" error", Paint::Plain),
        ];
        assert(segment_views(line@) =~= summary_line(*self));
        line
    }
}

/// The colors tell the kind of an outcome: mark and word are green and bold for an
/// available name, red for a taken one, yellow for an invalid one, magenta for a rate
/// limit and dim red for an error, and all else is plain.
pub proof fn law_colors_tell_the_outcome(result: ResultView)
    ensures
        ({
            let line = result.styled_line();
            let paint = match result.status {
                StatusView::Available => Paint::GreenBold,
                StatusView::Taken => Paint::Red,
                StatusView::Invalid { .. } => Paint::Yellow,
                StatusView::RateLimited { .. } => Paint::Magenta,
                StatusView::Error { .. } => Paint::RedDim,
            };
            &&& line.len() == 4
            &&& line[0].0.len() == 3 && line[0].1 == paint
            &&& line[1].1 == Paint::Plain
            &&& line[2].1 == paint
            &&& line[3].1 == Paint::Plain
        }),
{
    reveal_strlit("[+]");
    reveal_strlit("[-]");
    reveal_strlit("[!]");
    reveal_strlit("[?]");
}

/// The closing line names each count, in the color of its kind.
pub proof fn law_summary_names_each_count(counts: Counts)
    ensures
        ({
            let line = summary_line(counts);
            &&& unstyled(line) == "summary"@ + ": "@ + decimal(counts.available as nat)
                + " available · "@ + decimal(counts.taken as nat) + " taken · "@ + decimal(
                counts.invalid as nat,
            ) + " invalid · "@ + decimal(counts.rate_limited as nat) + " rate-limited · "@
                + decimal(counts.errors as nat) + " error"@
            &&& line.contains((decimal(counts.available as nat), Paint::GreenBold))
            &&& line.contains((decimal(counts.taken as nat), Paint::Red))
            &&& line.contains((decimal(counts.invalid as nat), Paint::Yellow))
            &&& line.contains((decimal(counts.rate_limited as nat), Paint::Magenta))
            &&& line.contains((decimal(counts.errors as nat), Paint::RedDim))
        }),
{
    let line = summary_line(counts);
    assert(line.len() == 12);
    assert(line.take(0) =~= seq![]);
    assert(unstyled(line.take(0)) =~= seq![]);
    lemma_unstyled_step(line, 1);
    lemma_unstyled_step(line, 2);
    lemma_unstyled_step(line, 3);
    lemma_unstyled_step(line, 4);
    lemma_unstyled_step(line, 5);
    lemma_unstyled_step(line, 6);
    lemma_unstyled_step(line, 7);
    lemma_unstyled_step(line, 8);
    lemma_unstyled_step(line, 9);
    lemma_unstyled_step(line, 10);
    lemma_unstyled_step(line, 11);
    lemma_unstyled_step(line, 12);
    assert(line.take(12) =~= line);
    assert(unstyled(line.take(1)) =~= line[0].0);
    assert(line[2] == (decimal(counts.available as nat), Paint::GreenBold));
    assert(line[4] == (decimal(counts.taken as nat), Paint::Red));
    assert(line[6] == (decimal(counts.invalid as nat), Paint::Yellow));
    assert(line[8] == (decimal(counts.rate_limited as nat), Paint::Magenta));
    assert(line[10] == (decimal(counts.errors as nat), Paint::RedDim));
}

proof fn lemma_unstyled_step(line: Seq<(Seq<char>, Paint)>, k: int)
    requires
        0 < k <= line.len(),
    ensures
        unstyled(line.take(k)) == unstyled(line.take(k - 1)) + line[k - 1].0,
{
    assert(line.take(k).drop_last() =~= line.take(k - 1));
}

} // verus!
