//! Fields as text for display.

use vstd::prelude::*;
use vstd::string::*;
use crate::field::{complements_view, examples_view, ExampleView, Field, FieldView};

verus! {

/// What introduces each complement in the printed form of a field.
pub open spec fn complement_lead() -> Seq<char> {
    seq!['\u{e2}', '\u{2014}', '\u{2020}']
}

/// What introduces each example in the printed form of a field: a line feed
/// and eight spaces.
pub open spec fn example_lead() -> Seq<char> {
    seq!['\n', ' ', ' ', ' ', ' ', ' ', ' ', ' ', ' ']
}

/// The complements of a printed field, each behind its lead.
pub open spec fn printed_complements(list: Seq<Seq<char>>) -> Seq<char>
    decreases list.len(),
{
    if list.len() == 0 {
        Seq::empty()
    } else {
        printed_complements(list.drop_last()) + complement_lead() + list.last()
    }
}

/// The sentences of the examples of a printed field, each behind its lead.
pub open spec fn printed_examples(list: Seq<ExampleView>) -> Seq<char>
    decreases list.len(),
{
    if list.len() == 0 {
        Seq::empty()
    } else {
        printed_examples(list.drop_last()) + example_lead() + list.last().sentence
    }
}

/// The printed form of a field under its headword: the headword, the tag in
/// braces (empty braces where there is none), the separator, the explanation,
/// its complements, and the sentence of each example on a line of its own.
pub open spec fn printed(key: Seq<char>, field: FieldView) -> Seq<char> {
    key + seq![' ', '{'] + (match field.ident {
        Some(ident) => ident,
        None => Seq::empty(),
    }) + seq!['}', ' ', ':', ' '] + field.explanation.body + printed_complements(
        field.explanation.complements,
    ) + printed_examples(field.examples)
}

/// Prints a field under its headword.
pub fn printer(key: &str, field: &Field) -> (out: String)
    ensures
        out@ == printed(key@, field@),
{
    let mut out = String::from_str(key);
    out.append(" {");
    match &field.ident {
        Some(ident) => {
            out.append(ident.as_str());
        },
        None => {},
    }
    out.append("} : ");
    out.append(field.explanation.body.as_str());
    proof {
        reveal_strlit(" {");
        reveal_strlit("} : ");
        assert(" {"@ =~= seq![' ', '{']);
        assert("} : "@ =~= seq!['}', ' ', ':', ' ']);
    }
    let ghost head = out@;
    let complements = &field.explanation.complements;
    let ghost bodies = complements_view(complements@);
    let mut i: usize = 0;
    assert(bodies.take(0) =~= Seq::empty());
    while i < complements.len()
        invariant
            i <= complements.len(),
            bodies == complements_view(complements@),
            out@ == head + printed_complements(bodies.take(i as int)),
        decreases complements.len() - i,
    {
        out.append("\u{e2}\u{2014}\u{2020}");
        out.append(complements[i].body.as_str());
        proof {
            reveal_strlit("\u{e2}\u{2014}\u{2020}");
            assert("\u{e2}\u{2014}\u{2020}"@ =~= complement_lead());
            assert(bodies.take(i + 1).drop_last() =~= bodies.take(i as int));
            assert(bodies.take(i + 1).last() == complements[i as int]@);
            assert(out@ =~= head + printed_complements(bodies.take(i + 1)));
        }
        i += 1;
    }
    assert(bodies.take(i as int) =~= bodies);
    let ghost middle = out@;
    let examples = &field.examples;
    let ghost views = examples_view(examples@);
    let mut j: usize = 0;
    assert(views.take(0) =~= Seq::empty());
    while j < examples.len()
        invariant
            j <= examples.len(),
            views == examples_view(examples@),
            out@ == middle + printed_examples(views.take(j as int)),
        decreases examples.len() - j,
    {
        out.append("\n        ");
        out.append(examples[j].sentence.as_str());
        proof {
            reveal_strlit("\n        ");
            assert("\n        "@ =~= example_lead());
            assert(views.take(j + 1).drop_last() =~= views.take(j as int));
            assert(views.take(j + 1).last() == examples[j as int]@);
            assert(out@ =~= middle + printed_examples(views.take(j + 1)));
        }
        j += 1;
    }
    assert(views.take(j as int) =~= views);
    assert(out@ =~= printed(key@, field@));
    out
}

} // verus!
