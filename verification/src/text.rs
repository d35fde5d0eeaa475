//! Texts as characters, as lines, and from bytes.

use vstd::prelude::*;
use vstd::string::*;
use vstd::utf8::{decode_utf8, valid_utf8};

verus! {

/// The characters of `text`, in order.
pub fn text_chars(text: &str) -> (chars: Vec<char>)
    ensures
        chars@ == text@,
{
    broadcast use vstd::string::group_string_axioms;
    let mut chars: Vec<char> = Vec::new();
    for c in rest: text.chars()
        invariant
            rest.seq() == text@,
            chars@ == text@.take(rest.index() as int),
    {
        chars.push(c);
        assert(chars@ =~= text@.take(rest.index() + 1));
    }
    assert(chars@ =~= text@);
    chars
}

/// `line` without the carriage return at its end, if it has one.
pub open spec fn without_return(line: Seq<char>) -> Seq<char> {
    if line.len() > 0 && line.last() == '\r' {
        line.drop_last()
    } else {
        line
    }
}

/// Where the first line of `t` ends: at its first line feed, or at its end.
pub open spec fn first_line_end(t: Seq<char>, from: int) -> int
    decreases t.len() - from,
{
    if from < t.len() && t[from] != '\n' {
        first_line_end(t, from + 1)
    } else {
        from
    }
}

/// The first line ends between its start and the end of the text.
pub proof fn lemma_first_line_end(t: Seq<char>, from: int)
    requires
        0 <= from <= t.len(),
    ensures
        from <= first_line_end(t, from) <= t.len(),
    decreases t.len() - from,
{
    if from < t.len() && t[from] != '\n' {
        lemma_first_line_end(t, from + 1);
    }
}

/// The lines of a text. A line ends with a line feed, which is left out, as is
/// a carriage return before it. What stands behind the last line feed is a
/// line too, unless it is empty; a carriage return at its end stays.
pub open spec fn lines_of(t: Seq<char>) -> Seq<Seq<char>>
    decreases t.len(),
{
    if t.len() == 0 {
        Seq::empty()
    } else {
        let end = first_line_end(t, 0);
        if end >= t.len() {
            seq![t]
        } else {
            proof {
                lemma_first_line_end(t, 0);
            }
            seq![without_return(t.subrange(0, end))] + lines_of(
                t.subrange(end + 1, t.len() as int),
            )
        }
    }
}

/// `String::from_iter` of the standard library, over characters: the text of
/// those characters.
#[verifier::external_body]
pub(crate) fn text_of(chars: &[char]) -> (text: String)
    ensures
        text@ == chars@,
{
    String::from_iter(chars.iter())
}

/// `String::from_utf8` of the standard library: the text whose UTF-8 form
/// `bytes` is, if it is that of any.
#[verifier::external_body]
pub(crate) fn string_from_utf8(bytes: Vec<u8>) -> (text: Option<String>)
    ensures
        text is Some <==> valid_utf8(bytes@),
        text is Some ==> text->0@ == decode_utf8(bytes@),
{
    String::from_utf8(bytes).ok()
}

/// A line that holds no line feed ends where a line feed follows it, or the
/// text ends.
pub proof fn lemma_line_ends(t: Seq<char>, from: int, end: int)
    requires
        0 <= from <= end <= t.len(),
        forall|i: int| from <= i < end ==> #[trigger] t[i] != '\n',
        end == t.len() || t[end] == '\n',
    ensures
        first_line_end(t, from) == end,
    decreases end - from,
{
    if from < end {
        assert(t[from] != '\n');
        lemma_line_ends(t, from + 1, end);
    }
}

/// The lines of a text from `start` on, where a line feed stands at `end` and
/// none between the two: the line between them, and the lines behind the line
/// feed.
pub proof fn lemma_lines_step(t: Seq<char>, start: int, end: int)
    requires
        0 <= start <= end < t.len(),
        forall|i: int| start <= i < end ==> #[trigger] t[i] != '\n',
        t[end] == '\n',
    ensures
        lines_of(t.skip(start)) == seq![without_return(t.subrange(start, end))] + lines_of(
            t.skip(end + 1),
        ),
{
    let rest = t.skip(start);
    lemma_line_ends(rest, 0, end - start);
    assert(rest.subrange(0, end - start) =~= t.subrange(start, end));
    assert(rest.subrange(end - start + 1, rest.len() as int) =~= t.skip(end + 1));
}

/// The lines of a text from `start` on, where no line feed stands from there
/// on: what is left, unless it is empty.
pub proof fn lemma_lines_end(t: Seq<char>, start: int)
    requires
        0 <= start <= t.len(),
        forall|i: int| start <= i < t.len() ==> #[trigger] t[i] != '\n',
    ensures
        lines_of(t.skip(start)) == if start < t.len() {
            seq![t.skip(start)]
        } else {
            Seq::empty()
        },
{
    let rest = t.skip(start);
    lemma_line_ends(rest, 0, rest.len() as int);
}

} // verus!
