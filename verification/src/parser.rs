//! Reading entry lines into headwords and fields.

use vstd::prelude::*;
use vstd::slice::{slice_subrange, slice_to_vec};
use vstd::string::*;
use crate::error::DictError;
use crate::field::{complements_view, examples_view, Complement, Example, Explanation, Field};
use crate::grammar::{
    complements_end, complements_from, head_end, example_of, examples_end, examples_from,
    head_ends_at, headword_end, is_marker, last_tag_close, layout, lemma_run_end, parse_line,
    run_end, separator_at, tag_at, tag_close_at, Layout, Run, COMPLEMENT_MARKER, ENTRY_MARKER,
};
use crate::text::{text_chars, text_of};

verus! {

/// Whether `c` is one of the two markers.
fn is_marker_char(c: char) -> (b: bool)
    ensures
        b == is_marker(c),
{
    c == ENTRY_MARKER || c == COMPLEMENT_MARKER
}

impl Run {
    /// Whether `c` may stand in a run of this kind.
    pub fn admits(&self, c: char) -> (b: bool)
        ensures
            b == self.holds(c),
    {
        match self {
            Run::Body => !is_marker_char(c),
            Run::Line => c != '\n',
            Run::Spaces => c == ' ',
        }
    }
}

/// The end of the run of `run` characters from `from`, not behind `end`.
fn scan_run(chars: &Vec<char>, from: usize, end: usize, run: Run) -> (stop: usize)
    requires
        from <= end <= chars.len(),
    ensures
        stop == run_end(chars@, from as int, end as int, run),
        from <= stop <= end,
{
    let mut i: usize = from;
    while i < end && run.admits(chars[i])
        invariant
            from <= i <= end <= chars.len(),
            run_end(chars@, from as int, end as int, run) == run_end(
                chars@,
                i as int,
                end as int,
                run,
            ),
        decreases end - i,
    {
        i += 1;
    }
    i
}

/// Whether the separator stands at `at`.
fn is_separator(chars: &Vec<char>, at: usize) -> (b: bool)
    requires
        at <= chars.len(),
    ensures
        b == separator_at(chars@, at as int),
{
    chars.len() - at >= 3 && chars[at] == ' ' && chars[at + 1] == ':' && chars[at + 2] == ' '
}

/// Whether a closing brace stands at `at`, with the separator behind it.
fn is_tag_close(chars: &Vec<char>, at: usize) -> (b: bool)
    requires
        at <= chars.len(),
    ensures
        b == tag_close_at(chars@, at as int),
{
    at < chars.len() && chars[at] == '}' && is_separator(chars, at + 1)
}

/// The last place after `low`, and not after `high`, where a tag closes.
fn find_tag_close(chars: &Vec<char>, low: usize, high: usize) -> (r: Option<usize>)
    requires
        high <= chars.len(),
    ensures
        match r {
            Some(close) => last_tag_close(chars@, low as int, high as int) == Some(close as int)
                && low < close <= high && tag_close_at(chars@, close as int),
            None => last_tag_close(chars@, low as int, high as int) is None,
        },
{
    let mut j: usize = high;
    while j > low
        invariant
            j <= high <= chars.len(),
            last_tag_close(chars@, low as int, high as int) == last_tag_close(
                chars@,
                low as int,
                j as int,
            ),
        decreases j,
    {
        if is_tag_close(chars, j) {
            return Some(j);
        }
        j -= 1;
    }
    None
}

/// The text of the tag behind a headword that ends at `at`.
fn find_tag(chars: &Vec<char>, at: usize) -> (r: Option<(usize, usize)>)
    requires
        at <= chars.len(),
    ensures
        match r {
            Some((from, to)) => tag_at(chars@, at as int) == Some((from as int, to as int)) && at
                < from < to && tag_close_at(chars@, to as int),
            None => tag_at(chars@, at as int) is None,
        },
{
    let n = chars.len();
    let brace = scan_run(chars, at, n, Run::Spaces);
    if at < brace && brace < n && chars[brace] == '{' {
        let line = scan_run(chars, brace + 1, n, Run::Line);
        match find_tag_close(chars, brace + 1, line) {
            Some(close) => Some((brace + 1, close)),
            None => None,
        }
    } else {
        None
    }
}

/// The first place from `from` up to `limit` where a headword may end.
fn find_headword_end(chars: &Vec<char>, from: usize, limit: usize) -> (r: Option<usize>)
    requires
        from <= limit <= chars.len(),
    ensures
        match r {
            Some(at) => headword_end(chars@, from as int, limit as int) == Some(at as int) && from
                <= at <= limit && head_ends_at(chars@, at as int),
            None => headword_end(chars@, from as int, limit as int) is None,
        },
{
    let mut at: usize = from;
    while at < limit
        invariant
            from <= at <= limit <= chars.len(),
            headword_end(chars@, from as int, limit as int) == headword_end(
                chars@,
                at as int,
                limit as int,
            ),
        decreases limit - at,
    {
        if find_tag(chars, at).is_some() || is_separator(chars, at) {
            return Some(at);
        }
        at += 1;
    }
    assert(headword_end(chars@, limit as int + 1, limit as int) is None);
    if find_tag(chars, at).is_some() || is_separator(chars, at) {
        Some(at)
    } else {
        None
    }
}

/// The end of the headword of a line that starts with the entry marker.
fn find_head(chars: &Vec<char>) -> (r: Option<usize>)
    ensures
        match r {
            Some(end) => head_end(chars@) == Some(end as int) && 2 <= end <= chars.len()
                && head_ends_at(chars@, end as int),
            None => head_end(chars@) is None,
        },
{
    if chars.len() > 0 && chars[0] == ENTRY_MARKER {
        let limit = scan_run(chars, 1, chars.len(), Run::Line);
        if limit == 1 {
            assert(headword_end(chars@, 2, limit as int) is None);
            None
        } else {
            find_headword_end(chars, 2, limit)
        }
    } else {
        None
    }
}

/// The end of the chain of complements that starts at `from`.
fn scan_complements(chars: &Vec<char>, from: usize) -> (stop: usize)
    requires
        from <= chars.len(),
    ensures
        stop == complements_end(chars@, from as int),
        from <= stop <= chars.len(),
{
    let n = chars.len();
    let mut at: usize = from;
    loop
        invariant
            n == chars.len(),
            from <= at <= n,
            complements_end(chars@, from as int) == complements_end(chars@, at as int),
        decreases n - at,
    {
        if n - at >= 2 && chars[at] == COMPLEMENT_MARKER && !is_marker_char(chars[at + 1]) {
            at = scan_run(chars, at + 1, n, Run::Body);
        } else {
            return at;
        }
    }
}

/// The end of the examples that start at `at`.
fn scan_examples(chars: &Vec<char>, at: usize) -> (stop: usize)
    requires
        at <= chars.len(),
    ensures
        stop == examples_end(chars@, at as int),
        at <= stop <= chars.len(),
{
    let n = chars.len();
    if at < n && chars[at] == ENTRY_MARKER {
        let stop = scan_run(chars, at + 1, n, Run::Line);
        if at + 1 < stop {
            stop
        } else {
            at
        }
    } else {
        at
    }
}

/// Where the parts of an entry stand in its line.
pub struct Spans {
    pub headword_end: usize,
    pub ident: Option<(usize, usize)>,
    pub body: usize,
    pub body_end: usize,
    pub complements_end: usize,
    pub examples_end: usize,
}

impl View for Spans {
    type V = Layout;

    open spec fn view(&self) -> Layout {
        Layout {
            headword_end: self.headword_end as int,
            ident: match self.ident {
                Some((from, to)) => Some((from as int, to as int)),
                None => None,
            },
            body: self.body as int,
            body_end: self.body_end as int,
            complements_end: self.complements_end as int,
            examples_end: self.examples_end as int,
        }
    }
}

impl Spans {
    /// The parts follow one another and lie inside a line of `len`
    /// characters.
    pub open spec fn fits(&self, len: nat) -> bool {
        &&& 1 < self.headword_end
        &&& match self.ident {
            Some((from, to)) => self.headword_end < from < to < self.body,
            None => self.headword_end < self.body,
        }
        &&& self.body <= self.body_end <= self.complements_end <= self.examples_end <= len
    }
}

/// Finds the entry in a line of characters.
pub fn find_layout(chars: &Vec<char>) -> (r: Option<Spans>)
    ensures
        match r {
            Some(spans) => layout(chars@) == Some(spans@) && spans.fits(chars@.len()),
            None => layout(chars@) is None,
        },
{
    let n = chars.len();
    match find_head(chars) {
        None => None,
        Some(headword_end) => {
            let ident = find_tag(chars, headword_end);
            let body = match ident {
                Some((_, close)) => close + 4,
                None => headword_end + 3,
            };
            let body_end = scan_run(chars, body, n, Run::Body);
            if body_end == body {
                return None;
            }
            let complements_end = scan_complements(chars, body_end);
            let examples_end = scan_examples(chars, complements_end);
            Some(Spans { headword_end, ident, body, body_end, complements_end, examples_end })
        },
    }
}

/// The text of the characters of `chars` from `from` up to `to`.
fn text_at(chars: &Vec<char>, from: usize, to: usize) -> (text: String)
    requires
        from <= to <= chars.len(),
    ensures
        text@ == chars@.subrange(from as int, to as int),
{
    text_of(slice_subrange(chars.as_slice(), from, to))
}

/// The characters of `chars` from `from` up to `to`.
fn window(chars: &Vec<char>, from: usize, to: usize) -> (part: Vec<char>)
    requires
        from <= to <= chars.len(),
    ensures
        part@ == chars@.subrange(from as int, to as int),
{
    slice_to_vec(slice_subrange(chars.as_slice(), from, to))
}

/// All complements in a text, given as its characters.
pub fn complements_in(chars: &Vec<char>) -> (list: Vec<Complement>)
    ensures
        complements_view(list@) == complements_from(chars@, 0),
{
    let ghost t = chars@;
    let n = chars.len();
    let mut list: Vec<Complement> = Vec::new();
    let mut at: usize = 0;
    assert(complements_view(list@) + complements_from(t, 0) =~= complements_from(t, 0));
    while at < n
        invariant
            n == chars.len(),
            t == chars@,
            at <= n,
            complements_view(list@) + complements_from(t, at as int) == complements_from(t, 0),
        decreases n - at,
    {
        if n - at >= 2 && chars[at] == COMPLEMENT_MARKER && !is_marker_char(chars[at + 1]) {
            let stop = scan_run(chars, at + 1, n, Run::Body);
            let ghost before = list@;
            let body = text_at(chars, at + 1, stop);
            list.push(Complement { body });
            proof {
                lemma_run_end(t, at as int + 1, n as int, Run::Body);
                assert(complements_view(list@) =~= complements_view(before).push(
                    t.subrange(at as int + 1, stop as int),
                ));
                assert(complements_view(list@) + complements_from(t, stop as int)
                    =~= complements_view(before) + complements_from(t, at as int));
            }
            at = stop;
        } else {
            at += 1;
        }
    }
    assert(complements_view(list@) + complements_from(t, n as int) =~= complements_view(list@));
    list
}

/// All examples in a text, given as its characters.
pub fn examples_in(chars: &Vec<char>) -> (list: Vec<Example>)
    ensures
        examples_view(list@) == examples_from(chars@, 0),
{
    let ghost t = chars@;
    let n = chars.len();
    let mut list: Vec<Example> = Vec::new();
    let mut at: usize = 0;
    assert(examples_view(list@) + examples_from(t, 0) =~= examples_from(t, 0));
    while at < n
        invariant
            n == chars.len(),
            t == chars@,
            at <= n,
            examples_view(list@) + examples_from(t, at as int) == examples_from(t, 0),
        decreases n - at,
    {
        if n - at >= 2 && chars[at] == ENTRY_MARKER && !is_marker_char(chars[at + 1]) {
            let stop = scan_run(chars, at + 1, n, Run::Body);
            let next = scan_complements(chars, stop);
            let ghost before = list@;
            let sentence = text_at(chars, at + 1, stop);
            let complements = complements_in(&window(chars, stop, next));
            list.push(Example { sentence, complements });
            proof {
                lemma_run_end(t, at as int + 1, n as int, Run::Body);
                assert(list@.last()@ == example_of(t, at as int));
                assert(examples_view(list@) =~= examples_view(before).push(
                    example_of(t, at as int),
                ));
                assert(examples_view(list@) + examples_from(t, next as int) =~= examples_view(
                    before,
                ) + examples_from(t, at as int));
            }
            at = next;
        } else {
            at += 1;
        }
    }
    assert(examples_view(list@) + examples_from(t, n as int) =~= examples_view(list@));
    list
}

/// Reads one line, given as its characters, into its headword and field.
pub fn entry_in(chars: &Vec<char>) -> (r: Option<(String, Field)>)
    ensures
        match r {
            Some((headword, field)) => parse_line(chars@) == Some((headword@, field@)),
            None => parse_line(chars@) is None,
        },
{
    match find_layout(chars) {
        None => None,
        Some(spans) => {
            let headword = text_at(chars, 1, spans.headword_end);
            let ident = match spans.ident {
                Some((from, to)) => Some(text_at(chars, from, to)),
                None => None,
            };
            let body = text_at(chars, spans.body, spans.body_end);
            let complements = complements_in(
                &window(chars, spans.body_end, spans.complements_end),
            );
            let examples = examples_in(
                &window(chars, spans.complements_end, spans.examples_end),
            );
            let field = Field { ident, explanation: Explanation { body, complements }, examples };
            Some((headword, field))
        },
    }
}

/// All complements in `text`: each starts with the complement marker and runs
/// up to the next marker. A marker that no body follows starts none.
pub fn parse_complements(text: &str) -> (list: Vec<Complement>)
    ensures
        complements_view(list@) == complements_from(text@, 0),
{
    complements_in(&text_chars(text))
}

/// All examples in `text`: each starts with the entry marker, holds a sentence
/// up to the next marker, and owns the complements that follow it directly.
pub fn parse_examples(text: &str) -> (list: Vec<Example>)
    ensures
        examples_view(list@) == examples_from(text@, 0),
{
    examples_in(&text_chars(text))
}

/// Reads one line into its headword and field.
///
/// Succeeds exactly on the lines that start with the entry marker, followed
/// on the same line by a headword, then by a tag and the separator or by the
/// separator alone, and then by an explanation of at least one character. The
/// error carries line zero.
pub fn parse_field(text: &str) -> (r: Result<(String, Field), DictError>)
    ensures
        match r {
            Ok((headword, field)) => parse_line(text@) == Some((headword@, field@)),
            Err(e) => parse_line(text@) is None && e == (DictError::MalformedEntry { line: 0 }),
        },
{
    match entry_in(&text_chars(text)) {
        Some(entry) => Ok(entry),
        None => Err(DictError::MalformedEntry { line: 0 }),
    }
}

} // verus!
