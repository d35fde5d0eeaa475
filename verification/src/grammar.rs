//! The grammar of an entry line, as functions on sequences of characters.
//!
//! A line holds an entry marker, a headword, an optional tag in braces, the
//! separator `" : "`, an explanation, complements and examples:
//!
//! ```text
//! ■headword {tag} : explanation◆complement◆complement■example◆complement■example
//! ```
//!
//! The line starts with the entry marker. The headword is as short as it can
//! be, the tag as long as it can be. Neither is empty, and neither holds a
//! line feed. An explanation, a complement and an example's sentence run up to
//! the next marker of either kind, and none of them is empty. The complements
//! of the explanation follow it without a gap, and stop before the first
//! marker that no body follows. The examples stand between the entry marker
//! behind those complements and the end of the line; what stands there and is
//! no example is passed over. What follows the examples is not read.

use vstd::prelude::*;
use crate::field::{ExampleView, ExplanationView, FieldView};

verus! {

/// Starts an entry, and each example after the explanation.
pub const ENTRY_MARKER: char = '\u{25a0}';

/// Starts a complement.
pub const COMPLEMENT_MARKER: char = '\u{25c6}';

/// `c` is one of the two markers.
pub open spec fn is_marker(c: char) -> bool {
    c == ENTRY_MARKER || c == COMPLEMENT_MARKER
}

/// The kinds of character that a run is made of.
#[derive(Clone, Copy, PartialEq, Eq, Structural)]
pub enum Run {
    /// Anything but a marker.
    Body,
    /// Anything but a line feed.
    Line,
    /// The space character.
    Spaces,
}

impl Run {
    /// Whether `c` may stand in a run of this kind.
    pub open spec fn holds(self, c: char) -> bool {
        match self {
            Run::Body => !is_marker(c),
            Run::Line => c != '\n',
            Run::Spaces => c == ' ',
        }
    }
}

/// Where the run of `run` characters that starts at `from` stops: at the first
/// other character, or at `end`.
pub open spec fn run_end(t: Seq<char>, from: int, end: int, run: Run) -> int
    decreases end - from,
{
    if from < end && run.holds(t[from]) {
        run_end(t, from + 1, end, run)
    } else {
        from
    }
}

/// A run ends between its start and its limit, holds characters of its kind
/// only, and stops before a character of another kind or at its limit.
pub proof fn lemma_run_end(t: Seq<char>, from: int, end: int, run: Run)
    requires
        from <= end,
    ensures
        from <= run_end(t, from, end, run) <= end,
        forall|i: int| from <= i < run_end(t, from, end, run) ==> run.holds(#[trigger] t[i]),
        run_end(t, from, end, run) < end ==> !run.holds(t[run_end(t, from, end, run)]),
    decreases end - from,
{
    if from < end && run.holds(t[from]) {
        lemma_run_end(t, from + 1, end, run);
    }
}

/// The separator between the head of an entry and its explanation.
pub open spec fn separator_at(t: Seq<char>, at: int) -> bool {
    &&& 0 <= at
    &&& at + 3 <= t.len()
    &&& t[at] == ' '
    &&& t[at + 1] == ':'
    &&& t[at + 2] == ' '
}

/// A closing brace with the separator behind it.
pub open spec fn tag_close_at(t: Seq<char>, at: int) -> bool {
    0 <= at < t.len() && t[at] == '}' && separator_at(t, at + 1)
}

/// The last place after `low`, and not after `high`, where a tag closes.
pub open spec fn last_tag_close(t: Seq<char>, low: int, high: int) -> Option<int>
    decreases high - low,
{
    if high <= low {
        None
    } else if tag_close_at(t, high) {
        Some(high)
    } else {
        last_tag_close(t, low, high - 1)
    }
}

/// The tag that follows a headword ending at `at`: spaces, an opening brace,
/// and the longest text on the same line that a closing brace and the
/// separator follow. The result is the range of that text.
pub open spec fn tag_at(t: Seq<char>, at: int) -> Option<(int, int)> {
    let brace = run_end(t, at, t.len() as int, Run::Spaces);
    if at < brace < t.len() && t[brace] == '{' {
        match last_tag_close(t, brace + 1, run_end(t, brace + 1, t.len() as int, Run::Line)) {
            Some(close) => Some((brace + 1, close)),
            None => None,
        }
    } else {
        None
    }
}

/// Whether a headword may end at `at`: a tag or the separator follows.
pub open spec fn head_ends_at(t: Seq<char>, at: int) -> bool {
    tag_at(t, at) is Some || separator_at(t, at)
}

/// The first place from `from` up to `limit` where a headword may end.
pub open spec fn headword_end(t: Seq<char>, from: int, limit: int) -> Option<int>
    decreases limit + 1 - from,
{
    if from > limit {
        None
    } else if head_ends_at(t, from) {
        Some(from)
    } else {
        headword_end(t, from + 1, limit)
    }
}

/// Where the headword of a line ends, if the line starts with the entry
/// marker and a headword follows it: the headword holds at least one
/// character and no line feed.
pub open spec fn head_end(t: Seq<char>) -> Option<int> {
    if 0 < t.len() && t[0] == ENTRY_MARKER {
        headword_end(t, 2, run_end(t, 1, t.len() as int, Run::Line))
    } else {
        None
    }
}

/// A complement starts at `at`: its marker, then a character of its body.
pub open spec fn complement_at(t: Seq<char>, at: int) -> bool {
    0 <= at && at + 1 < t.len() && t[at] == COMPLEMENT_MARKER && !is_marker(t[at + 1])
}

/// Where the unbroken chain of complements that starts at `from` stops.
pub open spec fn complements_end(t: Seq<char>, from: int) -> int
    decreases t.len() - from,
{
    if complement_at(t, from) {
        proof {
            lemma_run_end(t, from + 1, t.len() as int, Run::Body);
        }
        complements_end(t, run_end(t, from + 1, t.len() as int, Run::Body))
    } else {
        from
    }
}

/// The bodies of all complements in `t` at or after `from`.
pub open spec fn complements_from(t: Seq<char>, from: int) -> Seq<Seq<char>>
    decreases t.len() - from,
{
    if from < 0 || from >= t.len() {
        Seq::empty()
    } else if complement_at(t, from) {
        proof {
            lemma_run_end(t, from + 1, t.len() as int, Run::Body);
        }
        let stop = run_end(t, from + 1, t.len() as int, Run::Body);
        seq![t.subrange(from + 1, stop)] + complements_from(t, stop)
    } else {
        complements_from(t, from + 1)
    }
}

/// An example starts at `at`: the entry marker, then a character of its
/// sentence.
pub open spec fn example_at(t: Seq<char>, at: int) -> bool {
    0 <= at && at + 1 < t.len() && t[at] == ENTRY_MARKER && !is_marker(t[at + 1])
}

/// Where the sentence of the example that starts at `at` stops.
pub open spec fn sentence_end(t: Seq<char>, at: int) -> int {
    run_end(t, at + 1, t.len() as int, Run::Body)
}

/// The example that starts at `at`.
pub open spec fn example_of(t: Seq<char>, at: int) -> ExampleView {
    let stop = sentence_end(t, at);
    ExampleView {
        sentence: t.subrange(at + 1, stop),
        complements: complements_from(t.subrange(stop, complements_end(t, stop)), 0),
    }
}

/// All examples in `t` at or after `from`.
pub open spec fn examples_from(t: Seq<char>, from: int) -> Seq<ExampleView>
    decreases t.len() - from,
{
    if from < 0 || from >= t.len() {
        Seq::empty()
    } else if example_at(t, from) {
        proof {
            lemma_run_end(t, from + 1, t.len() as int, Run::Body);
            lemma_complements_end(t, sentence_end(t, from));
        }
        seq![example_of(t, from)] + examples_from(t, complements_end(t, sentence_end(t, from)))
    } else {
        examples_from(t, from + 1)
    }
}

/// A chain of complements ends between its start and the end of the text.
pub proof fn lemma_complements_end(t: Seq<char>, from: int)
    requires
        from <= t.len(),
    ensures
        from <= complements_end(t, from) <= t.len(),
    decreases t.len() - from,
{
    if complement_at(t, from) {
        lemma_run_end(t, from + 1, t.len() as int, Run::Body);
        lemma_complements_end(t, run_end(t, from + 1, t.len() as int, Run::Body));
    }
}

/// Where the parts of an entry stand in its line.
pub struct Layout {
    /// The end of the headword, which starts behind the marker at the start
    /// of the line.
    pub headword_end: int,
    /// The text of the tag, where there is one.
    pub ident: Option<(int, int)>,
    /// The start of the explanation.
    pub body: int,
    /// The end of the explanation and start of its complements.
    pub body_end: int,
    /// The end of the complements and start of the examples.
    pub complements_end: int,
    /// The end of the examples.
    pub examples_end: int,
}

/// Where the explanation starts behind a headword that ends at `at`.
pub open spec fn body_start(t: Seq<char>, at: int) -> int {
    match tag_at(t, at) {
        Some((_, close)) => close + 4,
        None => at + 3,
    }
}

/// Where the examples that start at `at` end: with the line, if the entry
/// marker stands at `at` and the line goes on behind it; else at `at`.
pub open spec fn examples_end(t: Seq<char>, at: int) -> int {
    let stop = run_end(t, at + 1, t.len() as int, Run::Line);
    if 0 <= at < t.len() && t[at] == ENTRY_MARKER && at + 1 < stop {
        stop
    } else {
        at
    }
}

/// The layout of the entry in `t`, if it holds one: if it starts with the
/// entry marker, a headword with a tag or the separator behind it follows, and
/// the explanation is not empty.
pub open spec fn layout(t: Seq<char>) -> Option<Layout> {
    match head_end(t) {
        None => None,
        Some(headword_end) => {
            let body = body_start(t, headword_end);
            let body_end = run_end(t, body, t.len() as int, Run::Body);
            let complements_end = complements_end(t, body_end);
            if body < body_end {
                Some(
                    Layout {
                        headword_end,
                        ident: tag_at(t, headword_end),
                        body,
                        body_end,
                        complements_end,
                        examples_end: examples_end(t, complements_end),
                    },
                )
            } else {
                None
            }
        },
    }
}

/// The headword and field that a layout cuts out of `t`.
pub open spec fn entry_of(t: Seq<char>, l: Layout) -> (Seq<char>, FieldView) {
    (
        t.subrange(1, l.headword_end),
        FieldView {
            ident: match l.ident {
                Some((from, to)) => Some(t.subrange(from, to)),
                None => None,
            },
            explanation: ExplanationView {
                body: t.subrange(l.body, l.body_end),
                complements: complements_from(t.subrange(l.body_end, l.complements_end), 0),
            },
            examples: examples_from(t.subrange(l.complements_end, l.examples_end), 0),
        },
    )
}

/// The headword and field that the line `t` holds, if it holds an entry.
pub open spec fn parse_line(t: Seq<char>) -> Option<(Seq<char>, FieldView)> {
    match layout(t) {
        Some(l) => Some(entry_of(t, l)),
        None => None,
    }
}

} // verus!
