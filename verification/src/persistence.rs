//! Username lists and result logs as text.
//!
//! Two log formats are supported:
//!
//! - Plain text, append-only, one result per line:
//!
//!   ```text
//!   # Discord username check results
//!   alice - TAKEN
//!   bob - AVAILABLE
//!   chr - INVALID: Username must be between 2 and 32 in length.
//!   ```
//!
//! - JSON Lines, one record per line, for downstream tooling.
use vstd::prelude::*;
use vstd::string::*;

#[allow(unused_imports)]
use crate::generator::{drawn_from, in_pool, unique_handles, Charset, Length};
use crate::result::CheckResult;
#[allow(unused_imports)]
use crate::result::{result_views, ResultView};
use crate::text::{chars_of, is_whitespace, string_of, trim_bounds};
#[allow(unused_imports)]
use crate::text::{lemma_views_push, trim_end, trim_start, trimmed, views, whitespace};

verus! {

/// The pieces of `s` between the characters that `separates` holds of; there is
/// one piece more than there are such characters.
pub open spec fn split(s: Seq<char>, separates: spec_fn(char) -> bool) -> Seq<Seq<char>>
    decreases s.len(),
{
    if s.len() == 0 {
        seq![seq![]]
    } else {
        let before = split(s.drop_last(), separates);
        if separates(s.last()) {
            before.push(seq![])
        } else {
            before.drop_last().push(before.last().push(s.last()))
        }
    }
}

/// The pieces that are not empty.
pub open spec fn without_empty(pieces: Seq<Seq<char>>) -> Seq<Seq<char>>
    decreases pieces.len(),
{
    if pieces.len() == 0 {
        seq![]
    } else if pieces.last().len() == 0 {
        without_empty(pieces.drop_last())
    } else {
        without_empty(pieces.drop_last()).push(pieces.last())
    }
}

/// Whether `c` ends a name: a comma or whitespace.
pub open spec fn ends_name(c: char) -> bool {
    c == ',' || whitespace(c)
}

/// The names on one line: none on a blank line or a comment, which starts with
/// `#`, and else the fragments between commas and whitespace.
pub open spec fn line_names(line: Seq<char>) -> Seq<Seq<char>> {
    let content = trimmed(line);
    if content.len() == 0 || content[0] == '#' {
        seq![]
    } else {
        without_empty(split(content, |c: char| ends_name(c)))
    }
}

/// The names on a list of lines, in order.
pub open spec fn names_of_lines(lines: Seq<Seq<char>>) -> Seq<Seq<char>>
    decreases lines.len(),
{
    if lines.len() == 0 {
        seq![]
    } else {
        names_of_lines(lines.drop_last()) + line_names(lines.last())
    }
}

/// The lines of a text. The carriage return of a line end stays with its line.
pub open spec fn lines_of(text: Seq<char>) -> Seq<Seq<char>> {
    split(text, |c: char| c == '\n')
}

/// The names in a text, in order.
pub open spec fn text_names(text: Seq<char>) -> Seq<Seq<char>> {
    names_of_lines(lines_of(text))
}

proof fn lemma_split_nonempty(s: Seq<char>, separates: spec_fn(char) -> bool)
    ensures
        split(s, separates).len() > 0,
    decreases s.len(),
{
    if s.len() > 0 {
        lemma_split_nonempty(s.drop_last(), separates);
    }
}

/// Appends the names on the line `chars[from..to]` to `out`.
fn push_line_names(chars: &Vec<char>, from: usize, to: usize, out: &mut Vec<String>)
    requires
        from <= to <= chars@.len(),
    ensures
        views(final(out)@) == views(old(out)@) + line_names(
            chars@.subrange(from as int, to as int),
        ),
{
    let (lo, hi) = trim_bounds(chars, from, to);
    let ghost content = chars@.subrange(lo as int, hi as int);
    let ghost before = views(out@);
    let ghost separates = |c: char| ends_name(c);
    if lo == hi || chars[lo] == '#' {
        assert(views(out@) =~= before + line_names(chars@.subrange(from as int, to as int)));
        return;
    }
    let mut start: usize = lo;
    let mut i: usize = lo;
    assert(content.take(0) =~= seq![]);
    assert(chars@.subrange(lo as int, lo as int) =~= seq![]);
    assert(split(content.take(0), separates) =~= seq![seq![]]);
    assert(split(content.take(0), separates).drop_last() =~= seq![]);
    assert(views(out@) =~= before + without_empty(seq![]));
    while i < hi
        invariant
            lo <= start <= i <= hi <= chars@.len(),
            content == chars@.subrange(lo as int, hi as int),
            separates == |c: char| ends_name(c),
            split(content.take(i - lo), separates).len() > 0,
            split(content.take(i - lo), separates).last() == chars@.subrange(
                start as int,
                i as int,
            ),
            views(out@) == before + without_empty(
                split(content.take(i - lo), separates).drop_last(),
            ),
        decreases hi - i,
    {
        let ghost pieces = split(content.take(i - lo), separates);
        let ghost next = split(content.take(i + 1 - lo), separates);
        assert(content.take(i + 1 - lo).drop_last() =~= content.take(i - lo));
        assert(content.take(i + 1 - lo).last() == chars@[i as int]);
        let c = chars[i];
        if c == ',' || is_whitespace(c) {
            assert(next == pieces.push(seq![]));
            assert(next.drop_last() =~= pieces);
            if start < i {
                let name = string_of(chars, start, i);
                proof {
                    lemma_views_push(out@, name);
                }
                out.push(name);
            }
            assert(views(out@) =~= before + without_empty(pieces));
            start = i + 1;
            assert(chars@.subrange(start as int, i + 1) =~= seq![]);
        } else {
            assert(next.drop_last() =~= pieces.drop_last());
            assert(next.last() =~= chars@.subrange(start as int, i + 1));
        }
        i = i + 1;
    }
    assert(content.take(hi - lo) =~= content);
    if start < hi {
        let name = string_of(chars, start, hi);
        proof {
            lemma_views_push(out@, name);
        }
        out.push(name);
    }
    assert(views(out@) =~= before + without_empty(split(content, separates)));
}

/// Parses one line of a usernames file.
pub fn parse_usernames_line(line: &str) -> (names: Vec<String>)
    ensures
        views(names@) == line_names(line@),
{
    let chars = chars_of(line);
    let mut names: Vec<String> = Vec::new();
    push_line_names(&chars, 0, chars.len(), &mut names);
    assert(chars@.subrange(0, chars@.len() as int) =~= line@);
    assert(views(Seq::<String>::empty()) =~= seq![]);
    assert(views(names@) =~= line_names(line@));
    names
}

/// The names in a file that is read line by line.
pub struct NameStream {
    emitted: usize,
    lines: Ghost<Seq<Seq<char>>>,
}

impl View for NameStream {
    type V = Seq<Seq<char>>;

    /// The lines that were read.
    closed spec fn view(&self) -> Seq<Seq<char>> {
        self.lines@
    }
}

impl NameStream {
    /// The names on the lines are counted.
    #[verifier::type_invariant]
    spec fn counted(self) -> bool {
        self.emitted == names_of_lines(self.lines@).len()
    }

    /// A file of which nothing was read.
    pub fn new() -> (stream: Self)
        ensures
            stream@ == Seq::<Seq<char>>::empty(),
    {
        NameStream { emitted: 0, lines: Ghost(Seq::empty()) }
    }

    /// The names on the next line.
    pub fn on_line(&mut self, line: &str) -> (names: Vec<String>)
        requires
            names_of_lines(old(self)@).len() + line_names(line@).len() <= usize::MAX,
        ensures
            views(names@) == line_names(line@),
            final(self)@ == old(self)@.push(line@),
    {
        proof {
            use_type_invariant(&*self);
        }
        let names = parse_usernames_line(line);
        assert(views(names@).len() == names@.len());
        let ghost lines = self.lines@.push(line@);
        assert(lines.drop_last() =~= self.lines@);
        *self = NameStream { emitted: self.emitted + names.len(), lines: Ghost(lines) };
        names
    }

    /// The number of names so far.
    pub fn emitted(&self) -> (n: usize)
        ensures
            n == names_of_lines(self@).len(),
    {
        proof {
            use_type_invariant(self);
        }
        self.emitted
    }
}

/// Parses a blob of user-supplied text into usernames.
///
/// Accepts newlines, commas, or whitespace as separators. Empty fragments are
/// dropped. Order is preserved. Lines starting with `#` are treated as comments.
pub fn parse_usernames_text(text: &str) -> (names: Vec<String>)
    ensures
        views(names@) == text_names(text@),
{
    let chars = chars_of(text);
    let mut names: Vec<String> = Vec::new();
    let ghost newline = |c: char| c == '\n';
    let mut start: usize = 0;
    let mut i: usize = 0;
    assert(text@.take(0) =~= seq![]);
    assert(chars@.subrange(0, 0) =~= seq![]);
    assert(split(text@.take(0), newline) =~= seq![seq![]]);
    assert(split(text@.take(0), newline).drop_last() =~= seq![]);
    assert(views(names@) =~= names_of_lines(seq![]));
    while i < chars.len()
        invariant
            start <= i <= chars@.len(),
            chars@ == text@,
            newline == |c: char| c == '\n',
            split(text@.take(i as int), newline).len() > 0,
            split(text@.take(i as int), newline).last() == chars@.subrange(start as int, i as int),
            views(names@) == names_of_lines(split(text@.take(i as int), newline).drop_last()),
        decreases chars@.len() - i,
    {
        let ghost lines = split(text@.take(i as int), newline);
        let ghost next = split(text@.take(i + 1), newline);
        assert(text@.take(i + 1).drop_last() =~= text@.take(i as int));
        assert(text@.take(i + 1).last() == chars@[i as int]);
        if chars[i] == '\n' {
            assert(next == lines.push(seq![]));
            assert(next.drop_last() =~= lines);
            push_line_names(&chars, start, i, &mut names);
            start = i + 1;
            assert(chars@.subrange(start as int, i + 1) =~= seq![]);
        } else {
            assert(next.drop_last() =~= lines.drop_last());
            assert(next.last() =~= chars@.subrange(start as int, i + 1));
        }
        i = i + 1;
    }
    assert(text@.take(i as int) =~= text@);
    push_line_names(&chars, start, i, &mut names);
    names
}

/// First line of every text log.
pub const TEXT_LOG_HEADER: &'static str = "# Discord username check results";

/// The given lines, each followed by a newline.
pub open spec fn framed(lines: Seq<Seq<char>>) -> Seq<char>
    decreases lines.len(),
{
    if lines.len() == 0 {
        seq![]
    } else {
        framed(lines.drop_last()) + lines.last() + seq!['\n']
    }
}

/// Writes each line and a newline after it.
pub fn frame_lines(lines: &Vec<String>) -> (text: String)
    ensures
        text@ == framed(views(lines@)),
{
    let mut text = String::new();
    let mut i: usize = 0;
    while i < lines.len()
        invariant
            i <= lines@.len(),
            text@ == framed(views(lines@).take(i as int)),
        decreases lines@.len() - i,
    {
        text.append(lines[i].as_str());
        text.push('\n');
        i = i + 1;
        assert(views(lines@).take(i as int).drop_last() =~= views(lines@).take(i - 1));
        assert(text@ =~= framed(views(lines@).take(i as int)));
    }
    assert(views(lines@).take(i as int) =~= views(lines@));
    text
}

/// What is appended to a text log for `results`: the header too, where the log
/// did not exist.
pub open spec fn text_log_entry(existed: bool, results: Seq<ResultView>) -> Seq<char> {
    let body = framed(Seq::new(results.len(), |i: int| results[i].file_line()));
    if existed {
        body
    } else {
        TEXT_LOG_HEADER@ + seq!['\n'] + body
    }
}

/// The text that appends a batch of results to a plain-text log, and the number
/// of results in it.
///
/// Where the log does not exist yet, a single header line comes first. Later
/// batches just add lines, so the log accumulates every check across runs.
pub fn append_text_log(existed: bool, results: &Vec<CheckResult>) -> (entry: (String, usize))
    ensures
        entry.0@ == text_log_entry(existed, result_views(results@)),
        entry.1 == results@.len(),
{
    let mut text = String::new();
    if !existed {
        text.append(TEXT_LOG_HEADER);
        text.push('\n');
    }
    let ghost head = text@;
    let ghost all = Seq::new(
        results@.len(),
        |i: int| result_views(results@)[i].file_line(),
    );
    let mut i: usize = 0;
    assert(text@ =~= head + framed(all.take(0)));
    while i < results.len()
        invariant
            i <= results@.len(),
            all == Seq::new(results@.len(), |i: int| result_views(results@)[i].file_line()),
            text@ == head + framed(all.take(i as int)),
        decreases results@.len() - i,
    {
        let line = results[i].format_file_line();
        text.append(line.as_str());
        text.push('\n');
        i = i + 1;
        assert(all.take(i as int).drop_last() =~= all.take(i - 1));
        assert(text@ =~= head + framed(all.take(i as int)));
    }
    assert(all.take(i as int) =~= all);
    assert(text@ =~= text_log_entry(existed, result_views(results@)));
    (text, i)
}

/// The text that appends records to a JSON Lines log, given each record as a line
/// of JSON, and the number of records in it.
pub fn append_jsonl_log(records: &Vec<String>) -> (entry: (String, usize))
    ensures
        entry.0@ == framed(views(records@)),
        entry.1 == records@.len(),
{
    (frame_lines(records), records.len())
}

proof fn lemma_framed_append(a: Seq<Seq<char>>, b: Seq<Seq<char>>)
    ensures
        framed(a + b) == framed(a) + framed(b),
    decreases b.len(),
{
    if b.len() == 0 {
        assert(a + b =~= a);
        assert(framed(a) + framed(b) =~= framed(a));
    } else {
        lemma_framed_append(a, b.drop_last());
        assert((a + b).drop_last() =~= a + b.drop_last());
        assert(framed(a + b) =~= framed(a) + framed(b));
    }
}

/// A log written in two batches reads like one written in a single batch: the
/// header stands at the top once, and every line follows in order.
pub proof fn law_log_accumulates(first: Seq<ResultView>, second: Seq<ResultView>)
    ensures
        text_log_entry(false, first) + text_log_entry(true, second) == text_log_entry(
            false,
            first + second,
        ),
        text_log_entry(true, first) + text_log_entry(true, second) == text_log_entry(
            true,
            first + second,
        ),
{
    let a = Seq::new(first.len(), |i: int| first[i].file_line());
    let b = Seq::new(second.len(), |i: int| second[i].file_line());
    let both = first + second;
    assert(Seq::new(both.len(), |i: int| both[i].file_line()) =~= a + b);
    lemma_framed_append(a, b);
    assert(text_log_entry(false, first) + text_log_entry(true, second) =~= text_log_entry(
        false,
        both,
    ));
}

proof fn lemma_split_append(
    a: Seq<char>,
    c: char,
    b: Seq<char>,
    separates: spec_fn(char) -> bool,
)
    requires
        separates(c),
    ensures
        split(a.push(c) + b, separates) == split(a, separates) + split(b, separates),
    decreases b.len(),
{
    let whole = a.push(c) + b;
    if b.len() == 0 {
        assert(whole =~= a.push(c));
        assert(whole.drop_last() =~= a);
        assert(split(whole, separates) =~= split(a, separates) + split(b, separates));
    } else {
        lemma_split_append(a, c, b.drop_last(), separates);
        lemma_split_nonempty(b.drop_last(), separates);
        assert(whole.drop_last() =~= a.push(c) + b.drop_last());
        assert(whole.last() == b.last());
        let left = split(a, separates);
        let right = split(b.drop_last(), separates);
        assert((left + right).drop_last() =~= left + right.drop_last());
        assert((left + right).last() == right.last());
        assert(split(whole, separates) =~= left + split(b, separates));
    }
}

proof fn lemma_names_append(a: Seq<Seq<char>>, b: Seq<Seq<char>>)
    ensures
        names_of_lines(a + b) == names_of_lines(a) + names_of_lines(b),
    decreases b.len(),
{
    if b.len() == 0 {
        assert(a + b =~= a);
        assert(names_of_lines(a) + names_of_lines(b) =~= names_of_lines(a));
    } else {
        lemma_names_append(a, b.drop_last());
        assert((a + b).drop_last() =~= a + b.drop_last());
        assert(names_of_lines(a + b) =~= names_of_lines(a) + names_of_lines(b));
    }
}

/// Putting two texts on separate lines puts their names one after the other.
pub proof fn law_names_of_joined_texts(a: Seq<char>, b: Seq<char>)
    ensures
        text_names(a.push('\n') + b) == text_names(a) + text_names(b),
{
    lemma_split_append(a, '\n', b, |c: char| c == '\n');
    lemma_names_append(lines_of(a), lines_of(b));
}

proof fn lemma_trim_start_of_pushed(s: Seq<char>, c: char)
    requires
        whitespace(c),
    ensures
        trim_start(s.push(c)) == if trim_start(s).len() == 0 {
            seq![]
        } else {
            trim_start(s).push(c)
        },
    decreases s.len(),
{
    if s.len() == 0 {
        reveal_with_fuel(trim_start, 2);
        assert(s.push(c).drop_first() =~= seq![]);
    } else if whitespace(s[0]) {
        assert(s.push(c).drop_first() =~= s.drop_first().push(c));
        lemma_trim_start_of_pushed(s.drop_first(), c);
    }
}

/// Line ends of either kind do: a carriage return at the end of a line adds
/// nothing to it.
pub proof fn law_carriage_return_is_ignored(line: Seq<char>)
    ensures
        line_names(line.push('\r')) == line_names(line),
{
    lemma_trim_start_of_pushed(line, '\r');
    let content = trim_start(line);
    if content.len() > 0 {
        assert(content.push('\r').drop_last() =~= content);
    } else {
        assert(content =~= seq![]);
    }
    assert(trimmed(line.push('\r')) == trimmed(line));
}

/// `line` without the carriage return at its end.
pub open spec fn without_carriage_return(line: Seq<char>) -> Seq<char> {
    if line.len() > 0 && line.last() == '\r' {
        line.drop_last()
    } else {
        line
    }
}

/// The lines that a line reader takes from a text: each line end, a newline or a
/// carriage return and a newline, is cut off, and no empty line follows the last
/// newline.
pub open spec fn read_lines(text: Seq<char>) -> Seq<Seq<char>> {
    let pieces = lines_of(text);
    let ended = pieces.drop_last().map_values(|line: Seq<char>| without_carriage_return(line));
    if pieces.last().len() == 0 {
        ended
    } else {
        ended.push(pieces.last())
    }
}

proof fn lemma_names_without_carriage_returns(lines: Seq<Seq<char>>)
    ensures
        names_of_lines(lines.map_values(|line: Seq<char>| without_carriage_return(line)))
            == names_of_lines(lines),
    decreases lines.len(),
{
    let cut = lines.map_values(|line: Seq<char>| without_carriage_return(line));
    if lines.len() > 0 {
        lemma_names_without_carriage_returns(lines.drop_last());
        assert(cut.drop_last() =~= lines.drop_last().map_values(
            |line: Seq<char>| without_carriage_return(line),
        ));
        let line = lines.last();
        if line.len() > 0 && line.last() == '\r' {
            law_carriage_return_is_ignored(line.drop_last());
            assert(line.drop_last().push('\r') =~= line);
        }
    } else {
        assert(cut =~= lines);
    }
}

/// A text read line by line holds the names of the whole text, in the same order.
pub proof fn law_line_by_line_gives_the_same_names(text: Seq<char>)
    ensures
        names_of_lines(read_lines(text)) == text_names(text),
{
    let pieces = lines_of(text);
    lemma_split_nonempty(text, |c: char| c == '\n');
    lemma_names_without_carriage_returns(pieces.drop_last());
    let ended = pieces.drop_last().map_values(|line: Seq<char>| without_carriage_return(line));
    if pieces.last().len() == 0 {
        assert(pieces.last() =~= seq![]);
        assert(trimmed(pieces.last()) == pieces.last());
        assert(text_names(text) =~= names_of_lines(pieces.drop_last()));
    } else {
        assert(ended.push(pieces.last()).drop_last() =~= ended);
    }
}

/// Reading that ends before the last line has given the names of the lines before,
/// which come first among those of the whole text.
pub proof fn law_names_so_far_come_first(text: Seq<char>, k: int)
    requires
        0 <= k <= read_lines(text).len(),
    ensures
        names_of_lines(read_lines(text).take(k)).is_prefix_of(text_names(text)),
{
    let lines = read_lines(text);
    lemma_names_append(lines.take(k), lines.skip(k));
    assert(lines.take(k) + lines.skip(k) =~= lines);
    law_line_by_line_gives_the_same_names(text);
    let before = names_of_lines(lines.take(k));
    assert(text_names(text).subrange(0, before.len() as int) =~= before);
}

/// Whether `name` can stand in a list: it is not empty, holds no comma or
/// whitespace, and does not start a comment.
pub open spec fn listable(name: Seq<char>) -> bool {
    &&& name.len() > 0
    &&& name[0] != '#'
    &&& forall|i: int| 0 <= i < name.len() ==> !ends_name(#[trigger] name[i])
}

proof fn lemma_split_single(s: Seq<char>, separates: spec_fn(char) -> bool)
    requires
        forall|i: int| 0 <= i < s.len() ==> !separates(#[trigger] s[i]),
    ensures
        split(s, separates) == seq![s],
    decreases s.len(),
{
    if s.len() > 0 {
        let init = s.drop_last();
        assert forall|i: int| 0 <= i < init.len() implies !separates(#[trigger] init[i]) by {
            assert(init[i] == s[i]);
        }
        lemma_split_single(init, separates);
        assert(s.last() == s[s.len() - 1]);
        assert(init.push(s.last()) =~= s);
        assert(split(s, separates) =~= seq![s]);
    } else {
        assert(s =~= seq![]);
        assert(split(s, separates) =~= seq![s]);
    }
}

proof fn lemma_listable_alone(name: Seq<char>)
    requires
        listable(name),
    ensures
        text_names(name) == seq![name],
{
    lemma_split_single(name, |c: char| c == '\n');
    lemma_split_single(name, |c: char| ends_name(c));
    assert(!ends_name(name[0]) && !ends_name(name[name.len() - 1]));
    assert(trimmed(name) == name);
    let one = seq![name];
    reveal_with_fuel(without_empty, 2);
    reveal_with_fuel(names_of_lines, 2);
    assert(one.drop_last() =~= seq![]);
    assert(without_empty(one) =~= one);
    assert(names_of_lines(one) =~= one);
}

/// A file with one name per line reads back as the list that was written.
pub proof fn law_written_list_reads_back(names: Seq<Seq<char>>)
    requires
        forall|i: int| 0 <= i < names.len() ==> listable(#[trigger] names[i]),
    ensures
        text_names(framed(names)) == names,
    decreases names.len(),
{
    if names.len() == 0 {
        let empty = Seq::<char>::empty();
        assert(framed(names) =~= empty);
        assert(lines_of(empty) =~= seq![empty]);
        assert(trimmed(empty) == empty);
        reveal_with_fuel(names_of_lines, 2);
        assert(seq![empty].drop_last() =~= seq![]);
        assert(text_names(empty) =~= names);
    } else {
        let rest = names.drop_first();
        assert forall|i: int| 0 <= i < rest.len() implies listable(#[trigger] rest[i]) by {
            assert(rest[i] == names[i + 1]);
        }
        law_written_list_reads_back(rest);
        let one = seq![names[0]];
        assert(names =~= one + rest);
        lemma_framed_append(one, rest);
        reveal_with_fuel(framed, 2);
        assert(one.drop_last() =~= seq![]);
        assert(framed(one) =~= names[0].push('\n'));
        law_names_of_joined_texts(names[0], framed(rest));
        lemma_listable_alone(names[0]);
    }
}

/// Records without a line break read back line by line: the log holds a line for
/// each of them, in order, and an empty one after the last line break.
pub proof fn law_records_read_back(records: Seq<Seq<char>>)
    requires
        forall|i: int| 0 <= i < records.len() ==> !(#[trigger] records[i]).contains('\n'),
    ensures
        lines_of(framed(records)) == records.push(seq![]),
    decreases records.len(),
{
    let newline = |c: char| c == '\n';
    if records.len() == 0 {
        assert(framed(records) =~= seq![]);
        assert(lines_of(framed(records)) =~= records.push(seq![]));
    } else {
        let rest = records.drop_first();
        assert forall|i: int| 0 <= i < rest.len() implies !(#[trigger] rest[i]).contains('\n') by {
            assert(rest[i] == records[i + 1]);
        }
        law_records_read_back(rest);
        let first = records[0];
        let one = seq![first];
        assert(records =~= one + rest);
        lemma_framed_append(one, rest);
        reveal_with_fuel(framed, 2);
        assert(one.drop_last() =~= seq![]);
        assert(framed(one) =~= first.push('\n'));
        lemma_split_append(first, '\n', framed(rest), newline);
        assert forall|i: int| 0 <= i < first.len() implies !newline(#[trigger] first[i]) by {
            assert(first.contains(first[i]));
        }
        lemma_split_single(first, newline);
        assert(lines_of(framed(records)) =~= records.push(seq![]));
    }
}

/// Whether `name` is a fragment: not empty, and without comma or whitespace.
pub open spec fn fragment(name: Seq<char>) -> bool {
    &&& name.len() > 0
    &&& forall|i: int| 0 <= i < name.len() ==> !ends_name(#[trigger] name[i])
}

/// Whether every name of `names` is a fragment.
pub open spec fn all_fragments(names: Seq<Seq<char>>) -> bool {
    forall|k: int| 0 <= k < names.len() ==> fragment(#[trigger] names[k])
}

proof fn lemma_pieces_hold_no_separator(s: Seq<char>, separates: spec_fn(char) -> bool)
    ensures
        forall|k: int, i: int|
            0 <= k < split(s, separates).len() && 0 <= i < split(s, separates)[k].len()
                ==> !separates(#[trigger] split(s, separates)[k][i]),
    decreases s.len(),
{
    if s.len() > 0 {
        lemma_pieces_hold_no_separator(s.drop_last(), separates);
        lemma_split_nonempty(s.drop_last(), separates);
        let before = split(s.drop_last(), separates);
        let after = split(s, separates);
        assert forall|k: int, i: int|
            0 <= k < after.len() && 0 <= i < after[k].len() implies !separates(
            #[trigger] after[k][i],
        ) by {
            if k < before.len() - 1 {
                assert(after[k] == before[k]);
                assert(!separates(before[k][i]));
            } else if k == before.len() - 1 && i < before[k].len() {
                assert(!separates(before[k][i]));
            }
        }
    }
}

proof fn lemma_without_empty_keeps_fragments(pieces: Seq<Seq<char>>)
    requires
        forall|k: int, i: int|
            0 <= k < pieces.len() && 0 <= i < pieces[k].len() ==> !ends_name(
                #[trigger] pieces[k][i],
            ),
    ensures
        all_fragments(without_empty(pieces)),
    decreases pieces.len(),
{
    if pieces.len() > 0 {
        let init = pieces.drop_last();
        assert forall|k: int, i: int|
            0 <= k < init.len() && 0 <= i < init[k].len() implies !ends_name(
            #[trigger] init[k][i],
        ) by {
            assert(!ends_name(pieces[k][i]));
        }
        lemma_without_empty_keeps_fragments(init);
        let last = pieces.last();
        assert forall|i: int| 0 <= i < last.len() implies !ends_name(#[trigger] last[i]) by {
            assert(!ends_name(pieces[pieces.len() - 1][i]));
        }
    }
}

proof fn lemma_line_names_are_fragments(line: Seq<char>)
    ensures
        all_fragments(line_names(line)),
{
    let separates = |c: char| ends_name(c);
    let pieces = split(trimmed(line), separates);
    lemma_pieces_hold_no_separator(trimmed(line), separates);
    assert forall|k: int, i: int|
        0 <= k < pieces.len() && 0 <= i < pieces[k].len() implies !ends_name(
        #[trigger] pieces[k][i],
    ) by {
        assert(!separates(pieces[k][i]));
    }
    lemma_without_empty_keeps_fragments(pieces);
}

proof fn lemma_names_of_lines_are_fragments(lines: Seq<Seq<char>>)
    ensures
        all_fragments(names_of_lines(lines)),
    decreases lines.len(),
{
    if lines.len() > 0 {
        lemma_names_of_lines_are_fragments(lines.drop_last());
        lemma_line_names_are_fragments(lines.last());
    }
}

/// No parsed name is empty or holds a separator.
pub proof fn law_parsed_names_are_fragments(text: Seq<char>)
    ensures
        all_fragments(text_names(text)),
{
    lemma_names_of_lines_are_fragments(lines_of(text));
}

/// A generated batch, written one handle per line, reads back as the same batch.
pub proof fn law_generated_batch_reads_back(
    charset: Charset,
    length: Length,
    count: nat,
    batch: Seq<Seq<char>>,
)
    requires
        unique_handles(charset.pool(), length.chars(), count, batch),
    ensures
        text_names(framed(batch)) == batch,
{
    let pool = charset.pool();
    assert forall|i: int| 0 <= i < batch.len() implies listable(#[trigger] batch[i]) by {
        let name = batch[i];
        assert(drawn_from(pool, length.chars(), name));
        assert forall|k: int| 0 <= k < name.len() implies !ends_name(#[trigger] name[k]) && name[k]
            != '#' by {
            assert(in_pool(pool, name[k]));
        }
    }
    law_written_list_reads_back(batch);
}

/// Whether the characters of `s` from `a` up to `b` are a run of characters that are
/// neither commas nor whitespace, with a comma, whitespace or an end of the text on
/// either side.
pub open spec fn maximal_run(s: Seq<char>, a: int, b: int) -> bool {
    &&& 0 <= a < b <= s.len()
    &&& forall|i: int| a <= i < b ==> (#[trigger] s[i]) != ',' && !whitespace(s[i])
    &&& a == 0 || s[a - 1] == ',' || whitespace(s[a - 1])
    &&& b == s.len() || s[b] == ',' || whitespace(s[b])
}

/// Whether one of the `runs` holds position `i`.
pub open spec fn in_run(runs: Seq<(int, int)>, i: int) -> bool {
    exists|k: int| 0 <= k < runs.len() && (#[trigger] runs[k]).0 <= i < runs[k].1
}

/// Whether `names` are the maximal runs of `s` between commas and whitespace, all of
/// them and in order; `runs` are their bounds.
pub open spec fn are_runs(s: Seq<char>, names: Seq<Seq<char>>, runs: Seq<(int, int)>) -> bool {
    &&& names.len() == runs.len()
    &&& forall|k: int|
        0 <= k < runs.len() ==> maximal_run(s, (#[trigger] runs[k]).0, runs[k].1) && names[k]
            == s.subrange(runs[k].0, runs[k].1)
    &&& forall|k: int, l: int|
        0 <= k < l < runs.len() ==> (#[trigger] runs[k]).1 < (#[trigger] runs[l]).0
    &&& forall|i: int|
        0 <= i < s.len() && (#[trigger] s[i]) != ',' && !whitespace(s[i]) ==> in_run(runs, i)
}

/// The names between separators are the maximal runs of other characters.
pub proof fn lemma_pieces_are_runs(s: Seq<char>) -> (runs: Seq<(int, int)>)
    ensures
        are_runs(s, without_empty(split(s, |c: char| ends_name(c))), runs),
        split(s, |c: char| ends_name(c)).len() > 0,
        if s.len() > 0 && !ends_name(s.last()) {
            runs.len() > 0 && runs.last().1 == s.len() && split(
                s,
                |c: char| ends_name(c),
            ).last().len() > 0
        } else {
            split(s, |c: char| ends_name(c)).last().len() == 0
        },
    decreases s.len(),
{
    let separates = |c: char| ends_name(c);
    let pieces = split(s, separates);
    if s.len() == 0 {
        let none = Seq::<(int, int)>::empty();
        assert(pieces =~= seq![seq![]]);
        assert(pieces.drop_last() =~= seq![]);
        reveal_with_fuel(without_empty, 2);
        none
    } else {
        let init = s.drop_last();
        let c = s.last();
        let before = split(init, separates);
        let runs = lemma_pieces_are_runs(init);
        let names = without_empty(before);
        let end = init.len() as int;
        assert forall|i: int| 0 <= i < end implies init[i] == s[i] by {}
        if ends_name(c) {
            assert(pieces == before.push(seq![]));
            assert(pieces.drop_last() =~= before);
            assert forall|k: int| 0 <= k < runs.len() implies maximal_run(
                s,
                (#[trigger] runs[k]).0,
                runs[k].1,
            ) && names[k] == s.subrange(runs[k].0, runs[k].1) by {
                assert(maximal_run(init, runs[k].0, runs[k].1));
                assert forall|i: int| runs[k].0 <= i < runs[k].1 implies (#[trigger] s[i]) != ','
                    && !whitespace(s[i]) by {
                    assert(s[i] == init[i]);
                }
                assert(init.subrange(runs[k].0, runs[k].1) =~= s.subrange(runs[k].0, runs[k].1));
            }
            assert forall|i: int|
                0 <= i < s.len() && (#[trigger] s[i]) != ',' && !whitespace(s[i]) implies in_run(
                runs,
                i,
            ) by {
                assert(s[i] == init[i]);
            }
            runs
        } else {
            let front = before.drop_last();
            let last = before.last().push(c);
            assert(pieces == front.push(last));
            assert(pieces.drop_last() =~= front);
            let open = init.len() > 0 && !ends_name(init.last());
            let kept = if open {
                runs.drop_last()
            } else {
                runs
            };
            let start = if open {
                runs.last().0
            } else {
                end
            };
            let all = kept.push((start, s.len() as int));
            let found = without_empty(pieces);
            assert(found == without_empty(front).push(last));
            if open {
                assert(names == without_empty(front).push(before.last()));
                assert(names.last() == init.subrange(start, end));
                assert(maximal_run(init, runs.last().0, runs.last().1)) by {
                    assert(runs[runs.len() - 1] == runs.last());
                }
            } else {
                assert(names == without_empty(front));
                assert(before.last() =~= seq![]);
            }
            assert(last =~= s.subrange(start, s.len() as int));
            assert forall|k: int| 0 <= k < kept.len() implies runs[k].1 < start || runs[k].1
                < end by {
                if open {
                    assert(runs[k].1 < runs[runs.len() - 1].0);
                } else {
                    assert(maximal_run(init, runs[k].0, runs[k].1));
                    if runs[k].1 == end {
                        assert(init[end - 1] == init.last());
                    }
                }
            }
            assert forall|k: int| 0 <= k < all.len() implies maximal_run(
                s,
                (#[trigger] all[k]).0,
                all[k].1,
            ) && found[k] == s.subrange(all[k].0, all[k].1) by {
                if k < kept.len() {
                    assert(all[k] == runs[k]);
                    assert(maximal_run(init, runs[k].0, runs[k].1));
                    assert forall|i: int| runs[k].0 <= i < runs[k].1 implies (#[trigger] s[i])
                        != ',' && !whitespace(s[i]) by {
                        assert(s[i] == init[i]);
                    }
                    assert(names[k] == found[k]);
                    assert(init.subrange(runs[k].0, runs[k].1) =~= s.subrange(
                        runs[k].0,
                        runs[k].1,
                    ));
                } else {
                    assert forall|i: int| start <= i < s.len() implies (#[trigger] s[i]) != ','
                        && !whitespace(s[i]) by {
                        if i < end {
                            assert(s[i] == init[i]);
                        }
                    }
                }
            }
            assert forall|k: int, l: int| 0 <= k < l < all.len() implies (#[trigger] all[k]).1 < (
            #[trigger] all[l]).0 by {
                assert(all[k] == runs[k]);
                if l < kept.len() {
                    assert(all[l] == runs[l]);
                } else if !open {
                    assert(runs[k].1 < end);
                }
            }
            assert forall|i: int|
                0 <= i < s.len() && (#[trigger] s[i]) != ',' && !whitespace(s[i]) implies in_run(
                all,
                i,
            ) by {
                if i < end {
                    assert(s[i] == init[i]);
                    assert(in_run(runs, i));
                    let k = choose|k: int|
                        0 <= k < runs.len() && (#[trigger] runs[k]).0 <= i < runs[k].1;
                    if k < kept.len() {
                        assert(all[k] == runs[k]);
                    } else {
                        assert(all[kept.len() as int].0 <= i);
                    }
                } else {
                    assert(all[kept.len() as int].1 == s.len());
                }
            }
            all
        }
    }
}

/// On a line that is no comment, the names in order are the maximal runs of
/// characters that are neither commas nor whitespace. The law gives their bounds.
pub proof fn law_names_are_maximal_runs(line: Seq<char>) -> (runs: Seq<(int, int)>)
    requires
        trimmed(line).len() > 0 ==> trimmed(line)[0] != '#',
    ensures
        are_runs(trimmed(line), line_names(line), runs),
{
    if trimmed(line).len() == 0 {
        Seq::empty()
    } else {
        lemma_pieces_are_runs(trimmed(line))
    }
}

/// A line whose first character after whitespace is `#` holds no name, whatever
/// follows.
pub proof fn law_comments_hold_no_names(line: Seq<char>)
    requires
        trimmed(line).len() > 0,
        trimmed(line)[0] == '#',
    ensures
        line_names(line) == Seq::<Seq<char>>::empty(),
{
}

/// A text without commas and whitespace that is no comment is one name.
pub proof fn law_plain_text_is_one_name(text: Seq<char>)
    requires
        text.len() > 0,
        text[0] != '#',
        forall|i: int| 0 <= i < text.len() ==> (#[trigger] text[i]) != ',' && !whitespace(text[i]),
    ensures
        text_names(text) == seq![text],
{
    lemma_listable_alone(text);
}

/// A text of one line holds the names of that line. With the law on texts on separate
/// lines this fixes the names of every text.
pub proof fn law_single_line_holds_its_names(text: Seq<char>)
    requires
        !text.contains('\n'),
    ensures
        text_names(text) == line_names(text),
{
    let newline = |c: char| c == '\n';
    assert forall|i: int| 0 <= i < text.len() implies !newline(#[trigger] text[i]) by {
        assert(text.contains(text[i]));
    }
    lemma_split_single(text, newline);
    let one = seq![text];
    reveal_with_fuel(names_of_lines, 2);
    assert(one.drop_last() =~= seq![]);
    assert(names_of_lines(one) =~= line_names(text));
}

/// Framing puts a line break after each line: what is framed in two parts is framed
/// at once, and a single line is framed by one line break.
pub proof fn law_lines_are_framed_one_by_one(a: Seq<Seq<char>>, b: Seq<Seq<char>>, line: Seq<char>)
    ensures
        framed(a + b) == framed(a) + framed(b),
        framed(seq![line]) == line.push('\n'),
        framed(seq![]) == Seq::<char>::empty(),
{
    lemma_framed_append(a, b);
    reveal_with_fuel(framed, 2);
    assert(seq![line].drop_last() =~= seq![]);
    assert(framed(seq![line]) =~= line.push('\n'));
}

/// What is appended to an existing log for one result is its own file line and a line
/// break, and for no result nothing. A new log starts with the header. With the law
/// that batches accumulate this fixes every entry.
pub proof fn law_log_line_is_the_file_line(result: ResultView, results: Seq<ResultView>)
    ensures
        text_log_entry(true, seq![result]) == result.file_line().push('\n'),
        text_log_entry(true, seq![]) == Seq::<char>::empty(),
        text_log_entry(false, results) == "# Discord username check results"@.push('\n')
            + text_log_entry(true, results),
{
    let one = Seq::new(1, |i: int| seq![result][i].file_line());
    assert(Seq::new(seq![result].len(), |i: int| seq![result][i].file_line()) =~= one);
    assert(one =~= seq![result.file_line()]);
    law_lines_are_framed_one_by_one(seq![], seq![], result.file_line());
    let none = Seq::<ResultView>::empty();
    assert(Seq::new(none.len(), |i: int| none[i].file_line()) =~= seq![]);
    assert(text_log_entry(true, none) =~= seq![]);
    assert(text_log_entry(false, results) =~= "# Discord username check results"@.push('\n')
        + text_log_entry(true, results));
}

/// The entry for a batch that ends in `result` is the entry for the rest of it, the
/// file line of `result` and a line break.
pub proof fn law_each_result_adds_its_line(existed: bool, results: Seq<ResultView>, result: ResultView)
    ensures
        text_log_entry(existed, results.push(result)) == text_log_entry(existed, results)
            + result.file_line() + seq!['\n'],
{
    law_log_line_is_the_file_line(result, results);
    law_log_accumulates(results, seq![result]);
    assert(results + seq![result] =~= results.push(result));
    assert(text_log_entry(existed, results.push(result)) =~= text_log_entry(existed, results)
        + result.file_line() + seq!['\n']);
}

} // verus!
