//! Entry lines written from their parts, and the law that such a line is read
//! back as the parts it was written from.

use vstd::prelude::*;
use crate::field::{ExampleView, ExplanationView, FieldView};
use crate::grammar::{
    body_start, complement_at, complements_end, complements_from, entry_of, example_at,
    example_of, examples_end, examples_from, head_ends_at, head_end, headword_end, is_marker,
    last_tag_close, layout, lemma_complements_end, lemma_run_end, parse_line, run_end,
    sentence_end, separator_at, tag_at, tag_close_at, Run, COMPLEMENT_MARKER, ENTRY_MARKER,
};

verus! {

/// A list of complements as it stands in a line.
pub open spec fn complements_text(list: Seq<Seq<char>>) -> Seq<char>
    decreases list.len(),
{
    if list.len() == 0 {
        Seq::empty()
    } else {
        seq![COMPLEMENT_MARKER] + list[0] + complements_text(list.drop_first())
    }
}

/// An example as it stands in a line.
pub open spec fn example_text(example: ExampleView) -> Seq<char> {
    seq![ENTRY_MARKER] + example.sentence + complements_text(example.complements)
}

/// A list of examples as it stands in a line.
pub open spec fn examples_text(list: Seq<ExampleView>) -> Seq<char>
    decreases list.len(),
{
    if list.len() == 0 {
        Seq::empty()
    } else {
        example_text(list[0]) + examples_text(list.drop_first())
    }
}

/// A tag as it stands in a line: a space and the tag in braces.
pub open spec fn tag_text(ident: Option<Seq<char>>) -> Seq<char> {
    match ident {
        Some(t) => seq![' ', '{'] + t + seq!['}'],
        None => Seq::empty(),
    }
}

/// The head of a line: the marker, the headword, the tag and the separator.
pub open spec fn head_text(headword: Seq<char>, ident: Option<Seq<char>>) -> Seq<char> {
    seq![ENTRY_MARKER] + headword + tag_text(ident) + seq![' ', ':', ' ']
}

/// What follows the head of a line: the explanation, its complements, and
/// the examples.
pub open spec fn tail_text(field: FieldView) -> Seq<char> {
    field.explanation.body + complements_text(field.explanation.complements) + examples_text(
        field.examples,
    )
}

/// The line of an entry.
pub open spec fn entry_line(headword: Seq<char>, field: FieldView) -> Seq<char> {
    head_text(headword, field.ident) + tail_text(field)
}

/// No marker stands in `t`.
pub open spec fn plain(t: Seq<char>) -> bool {
    forall|i: int| 0 <= i < t.len() ==> !is_marker(#[trigger] t[i])
}

/// No line feed stands in `t`.
pub open spec fn one_line(t: Seq<char>) -> bool {
    forall|i: int| 0 <= i < t.len() ==> #[trigger] t[i] != '\n'
}

/// `t` can be the body of a complement or the sentence of an example.
pub open spec fn is_body(t: Seq<char>) -> bool {
    t.len() > 0 && plain(t)
}

/// Each text of the list can be the body of a complement.
pub open spec fn are_bodies(list: Seq<Seq<char>>) -> bool {
    forall|i: int| 0 <= i < list.len() ==> is_body(#[trigger] list[i])
}

/// Each text of the list stays on a line.
pub open spec fn on_one_line(list: Seq<Seq<char>>) -> bool {
    forall|i: int| 0 <= i < list.len() ==> one_line(#[trigger] list[i])
}

/// The headword can be written at the head of a line, before a tag or
/// without one: it is not empty and holds no line feed, no space before an
/// opening brace and no separator; before a tag it does not end with a space.
pub open spec fn is_written(h: Seq<char>, tagged: bool) -> bool {
    &&& h.len() > 0
    &&& one_line(h)
    &&& tagged ==> h.last() != ' '
    &&& forall|i: int| 0 <= i < h.len() - 1 ==> !(#[trigger] h[i] == ' ' && h[i + 1] == '{')
    &&& forall|i: int| !separator_at(h, i)
}

/// The headword ends with a space and a colon behind other characters. With
/// the space that follows it in a line, these make up a separator, and the
/// headword is read without them.
pub open spec fn ends_early(h: Seq<char>) -> bool {
    h.len() >= 3 && h[h.len() - 2] == ' ' && h.last() == ':'
}

/// The headword is read back as it is: it can be written, and does not end
/// early.
pub open spec fn is_headword(h: Seq<char>, tagged: bool) -> bool {
    is_written(h, tagged) && !ends_early(h)
}

/// The example has a sentence and complements that are bodies.
pub open spec fn is_example(e: ExampleView) -> bool {
    is_body(e.sentence) && are_bodies(e.complements)
}

/// The example stays on a line.
pub open spec fn example_on_line(e: ExampleView) -> bool {
    one_line(e.sentence) && on_one_line(e.complements)
}

/// Nowhere in `t` does a closing brace stand before the separator.
pub open spec fn no_tag_close(t: Seq<char>) -> bool {
    forall|i: int| !tag_close_at(t, i)
}

/// In none of the texts does a closing brace stand before the separator.
pub open spec fn none_close(list: Seq<Seq<char>>) -> bool {
    forall|i: int| 0 <= i < list.len() ==> no_tag_close(#[trigger] list[i])
}

/// In no part of the field does a closing brace stand before the separator.
pub open spec fn closes_no_tag(f: FieldView) -> bool {
    &&& no_tag_close(f.explanation.body)
    &&& none_close(f.explanation.complements)
    &&& forall|i: int|
        0 <= i < f.examples.len() ==> no_tag_close((#[trigger] f.examples[i]).sentence)
            && none_close(f.examples[i].complements)
}

/// The field is read back as it is: its tag, if it has one, is not empty,
/// stands on one line, and no part behind it holds a closing brace before a
/// separator; its explanation, its complements, its sentences and their
/// complements are not empty and hold no marker; and its examples hold no
/// line feed.
pub open spec fn is_field(f: FieldView) -> bool {
    &&& match f.ident {
        Some(t) => t.len() > 0 && one_line(t) && closes_no_tag(f),
        None => true,
    }
    &&& is_body(f.explanation.body)
    &&& are_bodies(f.explanation.complements)
    &&& forall|i: int|
        0 <= i < f.examples.len() ==> is_example(#[trigger] f.examples[i]) && example_on_line(
            f.examples[i],
        )
}

/// A run stops where its characters end.
proof fn lemma_run_stops(t: Seq<char>, from: int, stop: int, end: int, run: Run)
    requires
        0 <= from <= stop <= end <= t.len(),
        forall|i: int| from <= i < stop ==> run.holds(#[trigger] t[i]),
        stop == end || !run.holds(t[stop]),
    ensures
        run_end(t, from, end, run) == stop,
    decreases stop - from,
{
    if from < stop {
        assert(run.holds(t[from]));
        lemma_run_stops(t, from + 1, stop, end, run);
    }
}

/// The last place where a tag closes, where none closes behind it.
proof fn lemma_last_close(t: Seq<char>, low: int, close: int, high: int)
    requires
        low < close <= high,
        tag_close_at(t, close),
        forall|j: int| close < j <= high ==> !tag_close_at(t, j),
    ensures
        last_tag_close(t, low, high) == Some(close),
    decreases high - close,
{
    if high > close {
        lemma_last_close(t, low, close, high - 1);
    }
}

/// A headword ends at the first place where it may.
proof fn lemma_headword_ends(t: Seq<char>, from: int, end: int, limit: int)
    requires
        from <= end <= limit,
        forall|k: int| from <= k < end ==> !head_ends_at(t, k),
        head_ends_at(t, end),
    ensures
        headword_end(t, from, limit) == Some(end),
    decreases end - from,
{
    if from < end {
        lemma_headword_ends(t, from + 1, end, limit);
    }
}

/// `part` stands in `t` at `at`.
pub open spec fn stands_at(t: Seq<char>, at: int, part: Seq<char>) -> bool {
    0 <= at && at + part.len() <= t.len() && t.subrange(at, at + part.len()) == part
}

/// The characters of a part that stands in a text.
proof fn lemma_stands(t: Seq<char>, at: int, part: Seq<char>, i: int)
    requires
        stands_at(t, at, part),
        0 <= i < part.len(),
    ensures
        t[at + i] == part[i],
{
    assert(t.subrange(at, at + part.len())[i] == t[at + i]);
}

/// A part of a part stands in the whole.
proof fn lemma_stands_within(t: Seq<char>, at: int, whole: Seq<char>, offset: int, part: Seq<char>)
    requires
        stands_at(t, at, whole),
        stands_at(whole, offset, part),
    ensures
        stands_at(t, at + offset, part),
{
    assert forall|i: int| 0 <= i < part.len() implies t[at + offset + i] == part[i] by {
        lemma_stands(t, at, whole, offset + i);
        lemma_stands(whole, offset, part, i);
    }
    assert(t.subrange(at + offset, at + offset + part.len()) =~= part);
}

/// The parts of a list of complements that is not empty.
proof fn lemma_complements_parts(list: Seq<Seq<char>>)
    requires
        list.len() > 0,
    ensures
        complements_text(list).len() == 1 + list[0].len() + complements_text(
            list.drop_first(),
        ).len(),
        complements_text(list)[0] == COMPLEMENT_MARKER,
        stands_at(complements_text(list), 1, list[0]),
        stands_at(
            complements_text(list),
            1 + list[0].len() as int,
            complements_text(list.drop_first()),
        ),
{
    let t = complements_text(list);
    let rest = complements_text(list.drop_first());
    assert(t == seq![COMPLEMENT_MARKER] + list[0] + rest);
    let a = 1 + list[0].len() as int;
    assert(t.subrange(1, a) =~= list[0]);
    assert(t.subrange(a, a + rest.len()) =~= rest);
}

/// A list of complements that stands in `t` at `at`, with the entry marker
/// or nothing behind it, ends where its text ends.
pub proof fn lemma_complements_end_at(t: Seq<char>, at: int, list: Seq<Seq<char>>)
    requires
        stands_at(t, at, complements_text(list)),
        are_bodies(list),
        at + complements_text(list).len() == t.len() || t[at + complements_text(list).len()]
            == ENTRY_MARKER,
    ensures
        complements_end(t, at) == at + complements_text(list).len(),
    decreases list.len(),
{
    let text = complements_text(list);
    if list.len() == 0 {
        assert(!complement_at(t, at));
    } else {
        let first = list[0];
        let rest = list.drop_first();
        lemma_complements_parts(list);
        lemma_stands_within(t, at, text, 1, first);
        lemma_stands_within(t, at, text, 1 + first.len() as int, complements_text(rest));
        lemma_stands(t, at, text, 0);
        assert(is_body(first));
        lemma_stands(t, at + 1, first, 0);
        assert(complement_at(t, at));
        let stop = at + 1 + first.len();
        assert forall|i: int| at + 1 <= i < stop implies Run::Body.holds(#[trigger] t[i]) by {
            lemma_stands(t, at + 1, first, i - (at + 1));
        }
        assert(are_bodies(rest)) by {
            assert forall|i: int| 0 <= i < rest.len() implies is_body(#[trigger] rest[i]) by {
                assert(rest[i] == list[i + 1]);
            }
        }
        if rest.len() > 0 {
            lemma_complements_parts(rest);
            lemma_stands(t, stop, complements_text(rest), 0);
        }
        lemma_run_stops(t, at + 1, stop, t.len() as int, Run::Body);
        lemma_complements_end_at(t, stop, rest);
    }
}

/// A text that is a list of complements from `at` to its end holds those
/// complements from `at` on.
pub proof fn lemma_complements_from_at(t: Seq<char>, at: int, list: Seq<Seq<char>>)
    requires
        stands_at(t, at, complements_text(list)),
        at + complements_text(list).len() == t.len(),
        are_bodies(list),
    ensures
        complements_from(t, at) == list,
    decreases list.len(),
{
    let text = complements_text(list);
    if list.len() == 0 {
        assert(list =~= Seq::empty());
    } else {
        let first = list[0];
        let rest = list.drop_first();
        lemma_complements_parts(list);
        lemma_stands_within(t, at, text, 1, first);
        lemma_stands_within(t, at, text, 1 + first.len() as int, complements_text(rest));
        lemma_stands(t, at, text, 0);
        assert(is_body(first));
        lemma_stands(t, at + 1, first, 0);
        assert(complement_at(t, at));
        let stop = at + 1 + first.len();
        assert forall|i: int| at + 1 <= i < stop implies Run::Body.holds(#[trigger] t[i]) by {
            lemma_stands(t, at + 1, first, i - (at + 1));
        }
        assert(are_bodies(rest)) by {
            assert forall|i: int| 0 <= i < rest.len() implies is_body(#[trigger] rest[i]) by {
                assert(rest[i] == list[i + 1]);
            }
        }
        if rest.len() > 0 {
            lemma_complements_parts(rest);
            lemma_stands(t, stop, complements_text(rest), 0);
        }
        lemma_run_stops(t, at + 1, stop, t.len() as int, Run::Body);
        lemma_complements_from_at(t, stop, rest);
        assert(seq![first] + rest =~= list);
    }
}

/// The parts of a list of examples that is not empty.
proof fn lemma_examples_parts(list: Seq<ExampleView>)
    requires
        list.len() > 0,
    ensures
        examples_text(list).len() == 1 + list[0].sentence.len() + complements_text(
            list[0].complements,
        ).len() + examples_text(list.drop_first()).len(),
        examples_text(list)[0] == ENTRY_MARKER,
        stands_at(examples_text(list), 1, list[0].sentence),
        stands_at(
            examples_text(list),
            1 + list[0].sentence.len() as int,
            complements_text(list[0].complements),
        ),
        stands_at(
            examples_text(list),
            1 + list[0].sentence.len() as int + complements_text(list[0].complements).len() as int,
            examples_text(list.drop_first()),
        ),
{
    let t = examples_text(list);
    let s = list[0].sentence;
    let c = complements_text(list[0].complements);
    let rest = examples_text(list.drop_first());
    assert(t == seq![ENTRY_MARKER] + s + c + rest);
    let a = 1 + s.len() as int;
    let b = a + c.len() as int;
    assert(t.subrange(1, a) =~= s);
    assert(t.subrange(a, b) =~= c);
    assert(t.subrange(b, b + rest.len()) =~= rest);
}

/// A text that is a list of examples from `at` to its end holds those
/// examples from `at` on.
pub proof fn lemma_examples_from_at(t: Seq<char>, at: int, list: Seq<ExampleView>)
    requires
        stands_at(t, at, examples_text(list)),
        at + examples_text(list).len() == t.len(),
        forall|i: int| 0 <= i < list.len() ==> is_example(#[trigger] list[i]),
    ensures
        examples_from(t, at) == list,
    decreases list.len(),
{
    let text = examples_text(list);
    if list.len() == 0 {
        assert(list =~= Seq::empty());
    } else {
        let first = list[0];
        let rest = list.drop_first();
        let notes = complements_text(first.complements);
        lemma_examples_parts(list);
        lemma_stands_within(t, at, text, 1, first.sentence);
        lemma_stands_within(t, at, text, 1 + first.sentence.len() as int, notes);
        lemma_stands_within(
            t,
            at,
            text,
            1 + first.sentence.len() as int + notes.len() as int,
            examples_text(rest),
        );
        lemma_stands(t, at, text, 0);
        assert(is_example(first));
        lemma_stands(t, at + 1, first.sentence, 0);
        assert(example_at(t, at));
        let stop = at + 1 + first.sentence.len();
        let next = stop + notes.len();
        assert forall|i: int| at + 1 <= i < stop implies Run::Body.holds(#[trigger] t[i]) by {
            lemma_stands(t, at + 1, first.sentence, i - (at + 1));
        }
        assert forall|i: int| 0 <= i < rest.len() implies is_example(#[trigger] rest[i]) by {
            assert(rest[i] == list[i + 1]);
        }
        if rest.len() > 0 {
            lemma_examples_parts(rest);
            lemma_stands(t, next, examples_text(rest), 0);
        }
        if first.complements.len() > 0 {
            lemma_complements_parts(first.complements);
            lemma_stands(t, stop, notes, 0);
        }
        lemma_run_stops(t, at + 1, stop, t.len() as int, Run::Body);
        lemma_complements_end_at(t, stop, first.complements);
        assert(sentence_end(t, at) == stop);
        assert(complements_end(t, stop) == next);
        assert(t.subrange(stop, next) == notes);
        assert(stands_at(notes, 0, notes)) by {
            assert(notes.subrange(0, notes.len() as int) =~= notes);
        }
        lemma_complements_from_at(notes, 0, first.complements);
        assert(example_of(t, at) == first);
        lemma_examples_from_at(t, next, rest);
        assert(seq![first] + rest =~= list);
    }
}

/// Complements that are written one behind the other are read back as they
/// are: as many as were written, each with its body, in their order.
pub proof fn lemma_complements_parse(list: Seq<Seq<char>>)
    requires
        are_bodies(list),
    ensures
        complements_from(complements_text(list), 0) == list,
{
    let text = complements_text(list);
    assert(text.subrange(0, text.len() as int) =~= text);
    lemma_complements_from_at(text, 0, list);
}

/// Examples that are written one behind the other are read back as they are:
/// as many as were written, each with its sentence and its own complements,
/// in their order.
pub proof fn lemma_examples_parse(list: Seq<ExampleView>)
    requires
        forall|i: int| 0 <= i < list.len() ==> is_example(#[trigger] list[i]),
    ensures
        examples_from(examples_text(list), 0) == list,
{
    let text = examples_text(list);
    assert(text.subrange(0, text.len() as int) =~= text);
    lemma_examples_from_at(text, 0, list);
}

/// No line feed stands in a list of complements that stay on a line.
proof fn lemma_complements_one_line(list: Seq<Seq<char>>)
    requires
        on_one_line(list),
    ensures
        one_line(complements_text(list)),
    decreases list.len(),
{
    if list.len() > 0 {
        let rest = list.drop_first();
        assert(on_one_line(rest)) by {
            assert forall|i: int| 0 <= i < rest.len() implies one_line(#[trigger] rest[i]) by {
                assert(rest[i] == list[i + 1]);
            }
        }
        lemma_complements_one_line(rest);
        lemma_complements_parts(list);
        let t = complements_text(list);
        assert(one_line(list[0]));
        assert forall|i: int| 0 <= i < t.len() implies #[trigger] t[i] != '\n' by {
            let a = 1 + list[0].len() as int;
            if 1 <= i < a {
                lemma_stands(t, 1, list[0], i - 1);
            } else if i >= a {
                lemma_stands(t, a, complements_text(rest), i - a);
            }
        }
    }
}

/// No line feed stands in a list of examples that stay on a line.
proof fn lemma_examples_one_line(list: Seq<ExampleView>)
    requires
        forall|i: int| 0 <= i < list.len() ==> example_on_line(#[trigger] list[i]),
    ensures
        one_line(examples_text(list)),
    decreases list.len(),
{
    if list.len() > 0 {
        let first = list[0];
        let rest = list.drop_first();
        let notes = complements_text(first.complements);
        assert forall|i: int| 0 <= i < rest.len() implies example_on_line(#[trigger] rest[i]) by {
            assert(rest[i] == list[i + 1]);
        }
        lemma_examples_one_line(rest);
        assert(example_on_line(first));
        lemma_complements_one_line(first.complements);
        lemma_examples_parts(list);
        let t = examples_text(list);
        let a = 1 + first.sentence.len() as int;
        let b = a + notes.len() as int;
        assert forall|i: int| 0 <= i < t.len() implies #[trigger] t[i] != '\n' by {
            if 1 <= i < a {
                lemma_stands(t, 1, first.sentence, i - 1);
            } else if a <= i < b {
                lemma_stands(t, a, notes, i - a);
            } else if i >= b {
                lemma_stands(t, b, examples_text(rest), i - b);
            }
        }
    }
}

/// Where the parts of a written line stand.
proof fn lemma_line_parts(headword: Seq<char>, field: FieldView)
    ensures
        ({
            let t = entry_line(headword, field);
            let end = 1 + headword.len() as int;
            let body = head_text(headword, field.ident).len() as int;
            let notes = body + field.explanation.body.len();
            let examples = notes + complements_text(field.explanation.complements).len();
            &&& t[0] == ENTRY_MARKER
            &&& stands_at(t, 1, headword)
            &&& match field.ident {
                Some(ident) => {
                    &&& t[end] == ' '
                    &&& t[end + 1] == '{'
                    &&& stands_at(t, end + 2, ident)
                    &&& t[body - 4] == '}'
                    &&& body == end + 2 + ident.len() + 4
                },
                None => body == end + 3,
            }
            &&& t[body - 3] == ' '
            &&& t[body - 2] == ':'
            &&& t[body - 1] == ' '
            &&& stands_at(t, body, tail_text(field))
            &&& stands_at(t, body, field.explanation.body)
            &&& stands_at(t, notes, complements_text(field.explanation.complements))
            &&& stands_at(t, examples, examples_text(field.examples))
            &&& t.len() == examples + examples_text(field.examples).len()
        }),
{
    let t = entry_line(headword, field);
    let head = head_text(headword, field.ident);
    let tail = tail_text(field);
    let end = 1 + headword.len() as int;
    let body = head.len() as int;
    let notes = body + field.explanation.body.len();
    let examples = notes + complements_text(field.explanation.complements).len();
    assert(t.subrange(1, 1 + headword.len() as int) =~= headword);
    match field.ident {
        Some(ident) => {
            assert(t.subrange(end + 2, end + 2 + ident.len()) =~= ident);
        },
        None => {},
    }
    assert(t.subrange(body, body + tail.len()) =~= tail);
    assert(t.subrange(body, notes) =~= field.explanation.body);
    assert(t.subrange(notes, examples) =~= complements_text(field.explanation.complements));
    assert(t.subrange(examples, examples + examples_text(field.examples).len()) =~= examples_text(
        field.examples,
    ));
}

/// A headword that is followed by a tag or by the separator cannot end before
/// its end.
proof fn lemma_no_early_end(t: Seq<char>, headword: Seq<char>, tagged: bool, at: int)
    requires
        is_headword(headword, tagged),
        stands_at(t, 1, headword),
        2 + headword.len() < t.len(),
        2 <= at < 1 + headword.len(),
        t[1 + headword.len() as int] == ' ',
        !tagged ==> t[2 + headword.len() as int] == ':',
    ensures
        !head_ends_at(t, at),
{
    let end = 1 + headword.len() as int;
    assert forall|i: int| 1 <= i < end implies t[i] == headword[i - 1] by {
        lemma_stands(t, 1, headword, i - 1);
    }
    assert(headword[end - 2] == headword.last());
    if separator_at(t, at) {
        if at + 2 < end {
            assert(separator_at(headword, at - 1));
        } else if at + 2 == end {
            assert(headword[end - 3] == ' ');
        }
        assert(false);
    }
    let brace = run_end(t, at, t.len() as int, Run::Spaces);
    lemma_run_end(t, at, t.len() as int, Run::Spaces);
    if brace >= end {
        assert(Run::Spaces.holds(t[end - 1]));
        assert(!tagged);
        if brace > end + 1 {
            assert(Run::Spaces.holds(t[end + 1]));
        }
        assert(brace == end + 1);
    } else if brace > at && t[brace] == '{' {
        assert(Run::Spaces.holds(t[brace - 1]));
        assert(headword[brace - 2] == ' ' && headword[brace - 2 + 1] == '{');
        assert(false);
    }
}

/// Two texts without a closing brace before a separator have none where they
/// are joined at a marker.
proof fn lemma_joined_no_close(a: Seq<char>, b: Seq<char>)
    requires
        no_tag_close(a),
        no_tag_close(b),
        a.len() == 0 || b.len() == 0 || is_marker(a.last()) || is_marker(b[0]),
    ensures
        no_tag_close(a + b),
{
    let t = a + b;
    assert forall|j: int| !tag_close_at(t, j) by {
        if tag_close_at(t, j) {
            if j + 4 <= a.len() {
                assert(tag_close_at(a, j));
            } else if j >= a.len() {
                assert(tag_close_at(b, j - a.len()));
            } else {
                assert(t[a.len() as int] == b[0]);
                assert(t[a.len() - 1] == a.last());
            }
        }
    }
}

/// A list of complements without a closing brace before a separator has none
/// as a text.
proof fn lemma_complements_no_close(list: Seq<Seq<char>>)
    requires
        none_close(list),
    ensures
        no_tag_close(complements_text(list)),
    decreases list.len(),
{
    if list.len() > 0 {
        let rest = list.drop_first();
        assert(none_close(rest)) by {
            assert forall|i: int| 0 <= i < rest.len() implies no_tag_close(#[trigger] rest[i]) by {
                assert(rest[i] == list[i + 1]);
            }
        }
        lemma_complements_no_close(rest);
        let mark = seq![COMPLEMENT_MARKER];
        assert(no_tag_close(list[0]));
        lemma_joined_no_close(mark, list[0]);
        if rest.len() > 0 {
            lemma_complements_parts(rest);
        }
        lemma_joined_no_close(mark + list[0], complements_text(rest));
    }
}

/// A list of examples without a closing brace before a separator has none as
/// a text.
proof fn lemma_examples_no_close(list: Seq<ExampleView>)
    requires
        forall|i: int|
            0 <= i < list.len() ==> no_tag_close((#[trigger] list[i]).sentence) && none_close(
                list[i].complements,
            ),
    ensures
        no_tag_close(examples_text(list)),
    decreases list.len(),
{
    if list.len() > 0 {
        let first = list[0];
        let rest = list.drop_first();
        assert forall|i: int| 0 <= i < rest.len() implies no_tag_close(
            (#[trigger] rest[i]).sentence,
        ) && none_close(rest[i].complements) by {
            assert(rest[i] == list[i + 1]);
        }
        lemma_examples_no_close(rest);
        lemma_complements_no_close(first.complements);
        let mark = seq![ENTRY_MARKER];
        let notes = complements_text(first.complements);
        lemma_joined_no_close(mark, first.sentence);
        if first.complements.len() > 0 {
            lemma_complements_parts(first.complements);
        }
        lemma_joined_no_close(mark + first.sentence, notes);
        if rest.len() > 0 {
            lemma_examples_parts(rest);
        }
        lemma_joined_no_close(example_text(first), examples_text(rest));
    }
}

/// What follows the head of a line holds no closing brace before a separator
/// where no part of the field does.
proof fn lemma_tail_no_close(field: FieldView)
    requires
        closes_no_tag(field),
    ensures
        no_tag_close(tail_text(field)),
{
    let notes = complements_text(field.explanation.complements);
    let examples = examples_text(field.examples);
    lemma_complements_no_close(field.explanation.complements);
    lemma_examples_no_close(field.examples);
    if field.explanation.complements.len() > 0 {
        lemma_complements_parts(field.explanation.complements);
    }
    if field.examples.len() > 0 {
        lemma_examples_parts(field.examples);
    }
    lemma_joined_no_close(field.explanation.body, notes);
    lemma_joined_no_close(field.explanation.body + notes, examples);
}

/// The head of a written line is read back: the entry starts at the start of
/// the line, the headword ends where it was written to end, and the tag is
/// the one that was written.
proof fn lemma_head_parses(headword: Seq<char>, field: FieldView)
    requires
        is_headword(headword, field.ident is Some),
        is_field(field),
    ensures
        ({
            let t = entry_line(headword, field);
            let end = 1 + headword.len() as int;
            &&& head_end(t) == Some(end)
            &&& tag_at(t, end) == match field.ident {
                Some(ident) => Some((end + 2, end + 2 + ident.len())),
                None => None,
            }
            &&& body_start(t, end) == head_text(headword, field.ident).len()
        }),
{
    let t = entry_line(headword, field);
    let n = t.len() as int;
    let end = 1 + headword.len() as int;
    let body = head_text(headword, field.ident).len() as int;
    let tail = tail_text(field);
    lemma_line_parts(headword, field);
    assert forall|i: int| 1 <= i < end implies t[i] == headword[i - 1] by {
        lemma_stands(t, 1, headword, i - 1);
    }
    // The tag, or the lack of one, behind the headword.
    lemma_run_stops(t, end, end + 1, n, Run::Spaces);
    match field.ident {
        Some(ident) => {
            let from = end + 2;
            let close = from + ident.len();
            assert forall|i: int| from <= i < close implies t[i] == ident[i - from] by {
                lemma_stands(t, from, ident, i - from);
            }
            let line = run_end(t, from, n, Run::Line);
            lemma_run_end(t, from, n, Run::Line);
            if line <= close {
                if line < close {
                    assert(ident[line - from] != '\n');
                }
                assert(false);
            }
            assert(tag_close_at(t, close));
            lemma_tail_no_close(field);
            assert forall|j: int| close < j <= line implies !tag_close_at(t, j) by {
                if j >= body && tag_close_at(t, j) {
                    lemma_stands(t, body, tail, j - body);
                    lemma_stands(t, body, tail, j + 1 - body);
                    lemma_stands(t, body, tail, j + 2 - body);
                    lemma_stands(t, body, tail, j + 3 - body);
                    assert(tag_close_at(tail, j - body));
                }
            }
            lemma_last_close(t, from, close, line);
        },
        None => {},
    }
    assert(head_ends_at(t, end));
    // The headword does not end sooner.
    assert forall|k: int| 2 <= k < end implies !head_ends_at(t, k) by {
        lemma_no_early_end(t, headword, field.ident is Some, k);
    }
    let limit = run_end(t, 1, n, Run::Line);
    lemma_run_end(t, 1, n, Run::Line);
    if limit < end {
        assert(headword[limit - 1] != '\n');
        assert(false);
    }
    lemma_headword_ends(t, 2, end, limit);
}

/// What follows the head of a written line is read back.
proof fn lemma_tail_parses(headword: Seq<char>, field: FieldView)
    requires
        is_field(field),
    ensures
        ({
            let t = entry_line(headword, field);
            let body = head_text(headword, field.ident).len() as int;
            let notes = body + field.explanation.body.len();
            let examples = notes + complements_text(field.explanation.complements).len();
            &&& run_end(t, body, t.len() as int, Run::Body) == notes
            &&& body < notes
            &&& complements_end(t, notes) == examples
            &&& examples_end(t, examples) == t.len()
            &&& t.subrange(body, notes) == field.explanation.body
            &&& complements_from(t.subrange(notes, examples), 0) == field.explanation.complements
            &&& examples_from(t.subrange(examples, t.len() as int), 0) == field.examples
        }),
{
    let t = entry_line(headword, field);
    let n = t.len() as int;
    let text = field.explanation.body;
    let list = field.explanation.complements;
    let body = head_text(headword, field.ident).len() as int;
    let notes = body + text.len();
    let examples = notes + complements_text(list).len();
    lemma_line_parts(headword, field);
    assert forall|i: int| body <= i < notes implies Run::Body.holds(#[trigger] t[i]) by {
        lemma_stands(t, body, text, i - body);
    }
    if list.len() > 0 {
        lemma_complements_parts(list);
        lemma_stands(t, notes, complements_text(list), 0);
    }
    if field.examples.len() > 0 {
        lemma_examples_parts(field.examples);
        lemma_stands(t, examples, examples_text(field.examples), 0);
        assert(is_example(field.examples[0]));
        lemma_examples_one_line(field.examples);
        assert forall|i: int| examples + 1 <= i < n implies Run::Line.holds(#[trigger] t[i]) by {
            lemma_stands(t, examples, examples_text(field.examples), i - examples);
        }
        lemma_run_stops(t, examples + 1, n, n, Run::Line);
    }
    lemma_run_stops(t, body, notes, n, Run::Body);
    lemma_complements_end_at(t, notes, list);
    let notes_text = complements_text(list);
    assert(stands_at(notes_text, 0, notes_text)) by {
        assert(notes_text.subrange(0, notes_text.len() as int) =~= notes_text);
    }
    lemma_complements_from_at(notes_text, 0, list);
    let examples_text = examples_text(field.examples);
    assert(stands_at(examples_text, 0, examples_text)) by {
        assert(examples_text.subrange(0, examples_text.len() as int) =~= examples_text);
    }
    lemma_examples_from_at(examples_text, 0, field.examples);
}

/// A line written from a headword and a field is read back as that headword
/// and that field: one headword, the tag or none, the explanation, and as
/// many complements and examples as were written.
pub proof fn lemma_line_parses(headword: Seq<char>, field: FieldView)
    requires
        is_headword(headword, field.ident is Some),
        is_field(field),
    ensures
        parse_line(entry_line(headword, field)) == Some((headword, field)),
{
    let t = entry_line(headword, field);
    lemma_line_parts(headword, field);
    lemma_head_parses(headword, field);
    lemma_tail_parses(headword, field);
    let l = layout(t)->0;
    let (h, f) = entry_of(t, l);
    assert(h == headword);
    assert(f.ident == field.ident);
    assert(f.explanation.body == field.explanation.body);
    assert(f.explanation.complements == field.explanation.complements);
    assert(f.examples == field.examples);
}

/// How often `c` stands in `t`.
pub open spec fn occurrences(t: Seq<char>, c: char) -> nat
    decreases t.len(),
{
    if t.len() == 0 {
        0
    } else {
        occurrences(t.drop_last(), c) + if t.last() == c {
            1nat
        } else {
            0nat
        }
    }
}

/// How many complements the examples hold between them.
pub open spec fn notes_in(examples: Seq<ExampleView>) -> nat
    decreases examples.len(),
{
    if examples.len() == 0 {
        0
    } else {
        examples[0].complements.len() + notes_in(examples.drop_first())
    }
}

/// Occurrences in two texts add up in their concatenation.
proof fn lemma_occurrences_add(a: Seq<char>, b: Seq<char>, c: char)
    ensures
        occurrences(a + b, c) == occurrences(a, c) + occurrences(b, c),
    decreases b.len(),
{
    if b.len() == 0 {
        assert(a + b =~= a);
    } else {
        lemma_occurrences_add(a, b.drop_last(), c);
        assert((a + b).drop_last() =~= a + b.drop_last());
    }
}

/// A character that stands nowhere in a text occurs no times.
proof fn lemma_occurrences_none(t: Seq<char>, c: char)
    requires
        forall|i: int| 0 <= i < t.len() ==> t[i] != c,
    ensures
        occurrences(t, c) == 0,
    decreases t.len(),
{
    if t.len() > 0 {
        lemma_occurrences_none(t.drop_last(), c);
    }
}

/// Occurrences in a text of one character.
proof fn lemma_occurrences_one(c: char, d: char)
    ensures
        occurrences(seq![c], d) == if c == d {
            1nat
        } else {
            0nat
        },
{
    let one = seq![c];
    assert(one.drop_last() =~= Seq::empty());
    assert(occurrences(one.drop_last(), d) == 0);
    assert(one.last() == c);
}

/// The markers in a list of complements.
proof fn lemma_complements_markers(list: Seq<Seq<char>>)
    requires
        are_bodies(list),
    ensures
        occurrences(complements_text(list), COMPLEMENT_MARKER) == list.len(),
        occurrences(complements_text(list), ENTRY_MARKER) == 0,
    decreases list.len(),
{
    if list.len() > 0 {
        let rest = list.drop_first();
        assert(are_bodies(rest)) by {
            assert forall|i: int| 0 <= i < rest.len() implies is_body(#[trigger] rest[i]) by {
                assert(rest[i] == list[i + 1]);
            }
        }
        lemma_complements_markers(rest);
        assert(is_body(list[0]));
        let mark = seq![COMPLEMENT_MARKER];
        lemma_occurrences_one(COMPLEMENT_MARKER, COMPLEMENT_MARKER);
        lemma_occurrences_one(COMPLEMENT_MARKER, ENTRY_MARKER);
        lemma_occurrences_none(list[0], COMPLEMENT_MARKER);
        lemma_occurrences_none(list[0], ENTRY_MARKER);
        lemma_occurrences_add(mark, list[0], COMPLEMENT_MARKER);
        lemma_occurrences_add(mark, list[0], ENTRY_MARKER);
        lemma_occurrences_add(mark + list[0], complements_text(rest), COMPLEMENT_MARKER);
        lemma_occurrences_add(mark + list[0], complements_text(rest), ENTRY_MARKER);
    }
}

/// The markers in a list of examples.
proof fn lemma_examples_markers(list: Seq<ExampleView>)
    requires
        forall|i: int| 0 <= i < list.len() ==> is_example(#[trigger] list[i]),
    ensures
        occurrences(examples_text(list), ENTRY_MARKER) == list.len(),
        occurrences(examples_text(list), COMPLEMENT_MARKER) == notes_in(list),
    decreases list.len(),
{
    if list.len() > 0 {
        let first = list[0];
        let rest = list.drop_first();
        assert forall|i: int| 0 <= i < rest.len() implies is_example(#[trigger] rest[i]) by {
            assert(rest[i] == list[i + 1]);
        }
        lemma_examples_markers(rest);
        assert(is_example(first));
        lemma_complements_markers(first.complements);
        let mark = seq![ENTRY_MARKER];
        let notes = complements_text(first.complements);
        lemma_occurrences_one(ENTRY_MARKER, COMPLEMENT_MARKER);
        lemma_occurrences_one(ENTRY_MARKER, ENTRY_MARKER);
        lemma_occurrences_none(first.sentence, COMPLEMENT_MARKER);
        lemma_occurrences_none(first.sentence, ENTRY_MARKER);
        lemma_occurrences_add(mark, first.sentence, COMPLEMENT_MARKER);
        lemma_occurrences_add(mark, first.sentence, ENTRY_MARKER);
        lemma_occurrences_add(mark + first.sentence, notes, COMPLEMENT_MARKER);
        lemma_occurrences_add(mark + first.sentence, notes, ENTRY_MARKER);
        lemma_occurrences_add(example_text(first), examples_text(rest), COMPLEMENT_MARKER);
        lemma_occurrences_add(example_text(first), examples_text(rest), ENTRY_MARKER);
    }
}

/// In a written line whose headword and tag hold no marker, the entry marker
/// stands once for the entry and once for each example, and the complement
/// marker once for each complement.
pub proof fn lemma_markers_written(headword: Seq<char>, field: FieldView)
    requires
        plain(headword),
        match field.ident {
            Some(t) => plain(t),
            None => true,
        },
        is_field(field),
    ensures
        occurrences(entry_line(headword, field), ENTRY_MARKER) == 1 + field.examples.len(),
        occurrences(entry_line(headword, field), COMPLEMENT_MARKER)
            == field.explanation.complements.len() + notes_in(field.examples),
{
    let mark = seq![ENTRY_MARKER];
    let tag = tag_text(field.ident);
    let separator = seq![' ', ':', ' '];
    let body = field.explanation.body;
    let notes = complements_text(field.explanation.complements);
    let examples = examples_text(field.examples);
    lemma_complements_markers(field.explanation.complements);
    lemma_examples_markers(field.examples);
    assert forall|i: int| 0 <= i < tag.len() implies !is_marker(#[trigger] tag[i]) by {
        match field.ident {
            Some(t) => {
                if 2 <= i < 2 + t.len() {
                    assert(tag[i] == t[i - 2]);
                }
            },
            None => {},
        }
    }
    let markers = [ENTRY_MARKER, COMPLEMENT_MARKER];
    assert forall|k: int| 0 <= k < 2 implies occurrences(
        entry_line(headword, field),
        #[trigger] markers[k],
    ) == occurrences(mark, markers[k]) + occurrences(notes, markers[k]) + occurrences(
        examples,
        markers[k],
    ) by {
        let c = markers[k];
        lemma_occurrences_none(headword, c);
        lemma_occurrences_none(tag, c);
        lemma_occurrences_none(separator, c);
        lemma_occurrences_none(body, c);
        lemma_occurrences_add(mark, headword, c);
        lemma_occurrences_add(mark + headword, tag, c);
        lemma_occurrences_add(mark + headword + tag, separator, c);
        lemma_occurrences_add(body, notes, c);
        lemma_occurrences_add(body + notes, examples, c);
        lemma_occurrences_add(head_text(headword, field.ident), tail_text(field), c);
    }
    lemma_occurrences_one(ENTRY_MARKER, ENTRY_MARKER);
    lemma_occurrences_one(ENTRY_MARKER, COMPLEMENT_MARKER);
    assert(markers[0] == ENTRY_MARKER && markers[1] == COMPLEMENT_MARKER);
}

/// What a line holds for the reader where its headword ends early: the
/// headword without the space and the colon at its end, no tag, and an
/// explanation that starts with what stands between that space and colon and
/// the explanation that was written.
pub open spec fn early_headword(headword: Seq<char>) -> Seq<char> {
    headword.take(headword.len() - 2)
}

/// See [`early_headword`].
pub open spec fn early_field(field: FieldView) -> FieldView {
    FieldView {
        ident: None,
        explanation: ExplanationView {
            body: (match field.ident {
                Some(t) => seq!['{'] + t + seq!['}', ' ', ':', ' '],
                None => seq![':', ' '],
            }) + field.explanation.body,
            complements: field.explanation.complements,
        },
        examples: field.examples,
    }
}

/// A line whose headword ends early is read as the shorter headword, without
/// a tag, and with the complements and examples that were written.
pub proof fn lemma_early_line_parses(headword: Seq<char>, field: FieldView)
    requires
        is_written(headword, field.ident is Some),
        ends_early(headword),
        is_field(field),
        match field.ident {
            Some(t) => plain(t),
            None => true,
        },
    ensures
        entry_line(headword, field) == entry_line(early_headword(headword), early_field(field)),
        parse_line(entry_line(headword, field)) == Some(
            (early_headword(headword), early_field(field)),
        ),
{
    let short = early_headword(headword);
    let other = early_field(field);
    let n = headword.len() as int;
    assert(headword =~= short + seq![' ', ':']);
    assert(entry_line(headword, field) =~= entry_line(short, other)) by {
        assert(tag_text(other.ident) =~= Seq::<char>::empty());
        match field.ident {
            Some(t) => {
                assert(tag_text(field.ident) =~= seq![' ', '{'] + t + seq!['}']);
            },
            None => {
                assert(tag_text(field.ident) =~= Seq::<char>::empty());
            },
        }
    }
    assert(is_written(short, false)) by {
        assert forall|i: int| 0 <= i < short.len() implies #[trigger] short[i] != '\n' by {
            assert(short[i] == headword[i]);
        }
        assert forall|i: int| 0 <= i < short.len() - 1 implies !(#[trigger] short[i] == ' '
            && short[i + 1] == '{') by {
            assert(short[i] == headword[i] && short[i + 1] == headword[i + 1]);
        }
        assert forall|i: int| !separator_at(short, i) by {
            if separator_at(short, i) {
                assert(separator_at(headword, i));
            }
        }
    }
    if ends_early(short) {
        assert(separator_at(headword, n - 4));
    }
    assert forall|i: int| 0 <= i < other.explanation.body.len() implies !is_marker(
        #[trigger] other.explanation.body[i],
    ) by {
        match field.ident {
            Some(t) => {
                if 1 <= i < 1 + t.len() {
                    assert(other.explanation.body[i] == t[i - 1]);
                } else if i >= 5 + t.len() {
                    assert(other.explanation.body[i] == field.explanation.body[i - 5 - t.len()]);
                }
            },
            None => {
                if i >= 2 {
                    assert(other.explanation.body[i] == field.explanation.body[i - 2]);
                }
            },
        }
    }
    lemma_line_parses(short, other);
}

/// The numbers of examples and of complements that are read from a written
/// line are those of its markers, where its headword and its tag hold no
/// marker: the entry marker stands once for the entry and once for each
/// example that is read, the complement marker once for each complement that
/// is read. The complements and the examples that are read are those that
/// were written; so are the headword and the tag, unless the headword ends
/// early.
pub proof fn lemma_marker_counts(headword: Seq<char>, field: FieldView)
    requires
        is_written(headword, field.ident is Some),
        is_field(field),
        plain(headword),
        match field.ident {
            Some(t) => plain(t),
            None => true,
        },
    ensures
        parse_line(entry_line(headword, field)) is Some,
        !ends_early(headword) ==> parse_line(entry_line(headword, field)) == Some(
            (headword, field),
        ),
        ({
            let (_, read) = parse_line(entry_line(headword, field)).unwrap();
            &&& read.explanation.complements == field.explanation.complements
            &&& read.examples == field.examples
            &&& occurrences(entry_line(headword, field), ENTRY_MARKER) == 1 + read.examples.len()
            &&& occurrences(entry_line(headword, field), COMPLEMENT_MARKER)
                == read.explanation.complements.len() + notes_in(read.examples)
        }),
{
    lemma_markers_written(headword, field);
    if ends_early(headword) {
        lemma_early_line_parses(headword, field);
    } else {
        lemma_line_parses(headword, field);
    }
}

/// A part of a text that holds no line feed holds none.
proof fn lemma_part_one_line(t: Seq<char>, from: int, to: int)
    requires
        0 <= from <= to <= t.len(),
        forall|i: int| from <= i < to ==> #[trigger] t[i] != '\n',
    ensures
        one_line(t.subrange(from, to)),
{
    let part = t.subrange(from, to);
    assert forall|i: int| 0 <= i < part.len() implies #[trigger] part[i] != '\n' by {
        assert(part[i] == t[from + i]);
    }
}

/// The body of a complement or a sentence that was read: a run that starts
/// with a character that is no marker.
proof fn lemma_run_is_body(t: Seq<char>, at: int)
    requires
        0 <= at && at + 1 < t.len(),
        !is_marker(t[at + 1]),
    ensures
        is_body(t.subrange(at + 1, run_end(t, at + 1, t.len() as int, Run::Body))),
        at + 1 < run_end(t, at + 1, t.len() as int, Run::Body) <= t.len(),
{
    let stop = run_end(t, at + 1, t.len() as int, Run::Body);
    lemma_run_end(t, at + 1, t.len() as int, Run::Body);
    let part = t.subrange(at + 1, stop);
    assert forall|i: int| 0 <= i < part.len() implies !is_marker(#[trigger] part[i]) by {
        assert(part[i] == t[at + 1 + i]);
    }
}

/// Complements that are read are bodies, and stay on a line where the text
/// they are read from does.
proof fn lemma_complements_read(t: Seq<char>, from: int)
    requires
        0 <= from,
    ensures
        are_bodies(complements_from(t, from)),
        one_line(t) ==> on_one_line(complements_from(t, from)),
    decreases t.len() - from,
{
    if from < t.len() {
        if complement_at(t, from) {
            lemma_run_is_body(t, from);
            let stop = run_end(t, from + 1, t.len() as int, Run::Body);
            lemma_complements_read(t, stop);
            let first = t.subrange(from + 1, stop);
            let rest = complements_from(t, stop);
            let all = complements_from(t, from);
            assert(all == seq![first] + rest);
            if one_line(t) {
                lemma_part_one_line(t, from + 1, stop);
            }
            assert forall|i: int| 0 <= i < all.len() implies is_body(#[trigger] all[i]) && (
            one_line(t) ==> one_line(all[i])) by {
                if i > 0 {
                    assert(all[i] == rest[i - 1]);
                }
            }
        } else {
            lemma_complements_read(t, from + 1);
        }
    }
}

/// Examples that are read from one line can be written back.
proof fn lemma_examples_read(t: Seq<char>, from: int)
    requires
        0 <= from,
        one_line(t),
    ensures
        forall|i: int|
            0 <= i < examples_from(t, from).len() ==> is_example(
                #[trigger] examples_from(t, from)[i],
            ) && example_on_line(examples_from(t, from)[i]),
    decreases t.len() - from,
{
    if from < t.len() {
        if example_at(t, from) {
            lemma_run_is_body(t, from);
            let stop = sentence_end(t, from);
            lemma_complements_end(t, stop);
            let next = complements_end(t, stop);
            let notes = t.subrange(stop, next);
            lemma_part_one_line(t, from + 1, stop);
            lemma_part_one_line(t, stop, next);
            lemma_complements_read(notes, 0);
            lemma_examples_read(t, next);
            let first = example_of(t, from);
            let rest = examples_from(t, next);
            let all = examples_from(t, from);
            assert(all == seq![first] + rest);
            assert(first.sentence == t.subrange(from + 1, stop));
            assert(first.complements == complements_from(notes, 0));
            assert(is_example(first) && example_on_line(first));
            assert forall|i: int| 0 <= i < all.len() implies is_example(#[trigger] all[i])
                && example_on_line(all[i]) by {
                if i > 0 {
                    assert(all[i] == rest[i - 1]);
                } else {
                    assert(all[0] == first);
                }
            }
        } else {
            lemma_examples_read(t, from + 1);
            assert(examples_from(t, from) == examples_from(t, from + 1));
        }
    } else {
        assert(examples_from(t, from) =~= Seq::empty());
    }
}

/// Where a headword ends, if it ends: not before `from`, not behind `limit`,
/// and where it may.
proof fn lemma_headword_end(t: Seq<char>, from: int, limit: int)
    requires
        headword_end(t, from, limit) is Some,
    ensures
        from <= headword_end(t, from, limit)->0 <= limit,
        head_ends_at(t, headword_end(t, from, limit)->0),
    decreases limit + 1 - from,
{
    if from <= limit && !head_ends_at(t, from) {
        lemma_headword_end(t, from + 1, limit);
    }
}

/// The last place where a tag closes, if there is one: behind `low`, not
/// behind `high`.
proof fn lemma_tag_close(t: Seq<char>, low: int, high: int)
    requires
        last_tag_close(t, low, high) is Some,
    ensures
        low < last_tag_close(t, low, high)->0 <= high,
        tag_close_at(t, last_tag_close(t, low, high)->0),
    decreases high - low,
{
    if high > low && !tag_close_at(t, high) {
        lemma_tag_close(t, low, high - 1);
    }
}

/// What is read from a line: a headword that is not empty and holds no line
/// feed, a tag, if any, of which the same holds, and an explanation,
/// complements, sentences and their complements that are not empty and hold
/// no marker; the examples hold no line feed.
pub proof fn lemma_parsed_parts(t: Seq<char>)
    requires
        parse_line(t) is Some,
    ensures
        ({
            let (headword, field) = parse_line(t)->0;
            &&& headword.len() > 0
            &&& one_line(headword)
            &&& match field.ident {
                Some(ident) => ident.len() > 0 && one_line(ident),
                None => true,
            }
            &&& is_body(field.explanation.body)
            &&& are_bodies(field.explanation.complements)
            &&& forall|i: int|
                0 <= i < field.examples.len() ==> is_example(#[trigger] field.examples[i])
                    && example_on_line(field.examples[i])
        }),
{
    let n = t.len() as int;
    let l = layout(t)->0;
    let (headword, field) = entry_of(t, l);
    let limit = run_end(t, 1, n, Run::Line);
    lemma_run_end(t, 1, n, Run::Line);
    lemma_headword_end(t, 2, limit);
    lemma_part_one_line(t, 1, l.headword_end);
    // The tag.
    match tag_at(t, l.headword_end) {
        Some((from, to)) => {
            let line = run_end(t, from, n, Run::Line);
            lemma_run_end(t, from, n, Run::Line);
            lemma_run_end(t, l.headword_end, n, Run::Spaces);
            lemma_tag_close(t, from, line);
            lemma_part_one_line(t, from, to);
        },
        None => {},
    }
    // The explanation and its complements.
    assert(0 <= l.body <= n) by {
        if tag_at(t, l.headword_end) is None {
            assert(separator_at(t, l.headword_end));
        }
    }
    lemma_run_end(t, l.body, n, Run::Body);
    let body = t.subrange(l.body, l.body_end);
    assert forall|i: int| 0 <= i < body.len() implies !is_marker(#[trigger] body[i]) by {
        assert(body[i] == t[l.body + i]);
    }
    lemma_complements_end(t, l.body_end);
    lemma_complements_read(t.subrange(l.body_end, l.complements_end), 0);
    // The examples.
    if l.complements_end < n {
        lemma_run_end(t, l.complements_end + 1, n, Run::Line);
    }
    let shown = t.subrange(l.complements_end, l.examples_end);
    assert forall|i: int| 0 <= i < shown.len() implies #[trigger] shown[i] != '\n' by {
        assert(shown[i] == t[l.complements_end + i]);
    }
    lemma_examples_read(shown, 0);
}

} // verus!
