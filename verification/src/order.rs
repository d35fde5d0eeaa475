//! The order in which entries are sorted: by headword, then by field, then by
//! line. Texts are ordered by the bytes of their UTF-8 form, lists item by
//! item with a shorter list before its extensions, and a missing tag before
//! any tag.

use vstd::prelude::*;
use vstd::relations::total_ordering;
use vstd::string::*;
use vstd::utf8::{encode_utf8, encode_utf8_decode_utf8};
use crate::field::{
    complements_view, examples_view, Complement, Entry, EntryView, Example, ExampleView,
    Explanation, ExplanationView, Field, FieldView,
};

verus! {

/// How one value stands to another.
#[derive(Debug, Clone, Copy, PartialEq, Eq, Structural)]
pub enum Rank {
    Before,
    Same,
    After,
}

impl Rank {
    /// This rank, or `next` where this one does not decide.
    pub open spec fn otherwise(self, next: Rank) -> Rank {
        if self == Rank::Same {
            next
        } else {
            self
        }
    }

    /// The rank of the same two values, taken the other way round.
    pub open spec fn flip(self) -> Rank {
        match self {
            Rank::Before => Rank::After,
            Rank::Same => Rank::Same,
            Rank::After => Rank::Before,
        }
    }
}

/// `o` ranks equal values, and no others, as the same; ranks each pair both
/// ways round alike; and is transitive.
pub open spec fn is_total<T>(o: spec_fn(T, T) -> Rank) -> bool {
    &&& forall|x: T, y: T| ((#[trigger] o(x, y)) == Rank::Same) <==> x == y
    &&& forall|x: T, y: T| (#[trigger] o(x, y)) == o(y, x).flip()
    &&& forall|x: T, y: T, z: T|
        (#[trigger] o(x, y)) == Rank::Before && (#[trigger] o(y, z)) == Rank::Before ==> o(x, z)
            == Rank::Before
}

/// The rank of what `a` holds from `from` on against what `b` holds from
/// `from` on, item by item; a list that ends first comes first.
pub open spec fn lex_rank_from<T>(
    a: Seq<T>,
    b: Seq<T>,
    from: int,
    o: spec_fn(T, T) -> Rank,
) -> Rank
    decreases a.len() - from,
{
    if from >= a.len() {
        if from >= b.len() {
            Rank::Same
        } else {
            Rank::Before
        }
    } else if from >= b.len() {
        Rank::After
    } else if o(a[from], b[from]) == Rank::Same {
        lex_rank_from(a, b, from + 1, o)
    } else {
        o(a[from], b[from])
    }
}

/// The lexicographic rank of `a` against `b`.
pub open spec fn lex_rank<T>(a: Seq<T>, b: Seq<T>, o: spec_fn(T, T) -> Rank) -> Rank {
    lex_rank_from(a, b, 0, o)
}

/// The lexicographic order of lists over the order `o` of their items.
pub open spec fn lex_order<T>(o: spec_fn(T, T) -> Rank) -> spec_fn(Seq<T>, Seq<T>) -> Rank {
    |a: Seq<T>, b: Seq<T>| lex_rank(a, b, o)
}

/// Lists rank the same exactly where they are as long as each other and agree
/// item by item.
proof fn lemma_lex_same<T>(a: Seq<T>, b: Seq<T>, from: int, o: spec_fn(T, T) -> Rank)
    requires
        is_total(o),
        0 <= from <= a.len(),
        from <= b.len(),
    ensures
        lex_rank_from(a, b, from, o) == Rank::Same <==> (a.len() == b.len() && forall|k: int|
            from <= k < a.len() ==> a[k] == b[k]),
    decreases a.len() - from,
{
    if from < a.len() && from < b.len() {
        lemma_lex_same(a, b, from + 1, o);
        if o(a[from], b[from]) == Rank::Same {
            assert(a[from] == b[from]);
        } else {
            assert(a[from] != b[from]);
        }
    }
}

/// Lists rank the other way round as their items do.
proof fn lemma_lex_flip<T>(a: Seq<T>, b: Seq<T>, from: int, o: spec_fn(T, T) -> Rank)
    requires
        is_total(o),
        0 <= from,
    ensures
        lex_rank_from(a, b, from, o) == lex_rank_from(b, a, from, o).flip(),
    decreases a.len() - from,
{
    if from < a.len() && from < b.len() {
        lemma_lex_flip(a, b, from + 1, o);
        assert(o(a[from], b[from]) == o(b[from], a[from]).flip());
    }
}

/// The order of lists is transitive where that of their items is.
proof fn lemma_lex_transitive<T>(
    a: Seq<T>,
    b: Seq<T>,
    c: Seq<T>,
    from: int,
    o: spec_fn(T, T) -> Rank,
)
    requires
        is_total(o),
        0 <= from,
        lex_rank_from(a, b, from, o) == Rank::Before,
        lex_rank_from(b, c, from, o) == Rank::Before,
    ensures
        lex_rank_from(a, c, from, o) == Rank::Before,
    decreases a.len() - from,
{
    if from < a.len() {
        let ab = o(a[from], b[from]);
        let bc = o(b[from], c[from]);
        let ac = o(a[from], c[from]);
        if ab == Rank::Same && bc == Rank::Same {
            assert(a[from] == c[from]);
            assert(ac == Rank::Same);
            lemma_lex_transitive(a, b, c, from + 1, o);
        } else if ab == Rank::Same {
            assert(a[from] == b[from]);
        } else if bc == Rank::Same {
            assert(b[from] == c[from]);
        } else {
            assert(ac == Rank::Before);
        }
    }
}

/// Lists are totally ordered where their items are.
pub proof fn lemma_lex_total<T>(o: spec_fn(T, T) -> Rank)
    requires
        is_total(o),
    ensures
        is_total(lex_order(o)),
{
    let l = lex_order(o);
    assert forall|x: Seq<T>, y: Seq<T>| ((#[trigger] l(x, y)) == Rank::Same) <==> x == y by {
        lemma_lex_same(x, y, 0, o);
        if l(x, y) == Rank::Same {
            assert(x =~= y);
        }
    }
    assert forall|x: Seq<T>, y: Seq<T>| (#[trigger] l(x, y)) == l(y, x).flip() by {
        lemma_lex_flip(x, y, 0, o);
    }
    assert forall|x: Seq<T>, y: Seq<T>, z: Seq<T>|
        (#[trigger] l(x, y)) == Rank::Before && (#[trigger] l(y, z)) == Rank::Before implies l(x, z)
        == Rank::Before by {
        lemma_lex_transitive(x, y, z, 0, o);
    }
}

/// The order of bytes by their value.
pub open spec fn byte_order() -> spec_fn(u8, u8) -> Rank {
    |x: u8, y: u8|
        if x < y {
            Rank::Before
        } else if x == y {
            Rank::Same
        } else {
            Rank::After
        }
}

/// The order of byte strings.
pub open spec fn bytes_rank(a: Seq<u8>, b: Seq<u8>) -> Rank {
    lex_rank(a, b, byte_order())
}

/// The order of texts: that of their UTF-8 bytes.
pub open spec fn text_rank(a: Seq<char>, b: Seq<char>) -> Rank {
    bytes_rank(encode_utf8(a), encode_utf8(b))
}

/// The order of texts, as a function.
pub open spec fn text_order() -> spec_fn(Seq<char>, Seq<char>) -> Rank {
    |a: Seq<char>, b: Seq<char>| text_rank(a, b)
}

/// The order of lists of texts.
pub open spec fn texts_rank(a: Seq<Seq<char>>, b: Seq<Seq<char>>) -> Rank {
    lex_rank(a, b, text_order())
}

/// The order of optional tags: none before any.
pub open spec fn ident_rank(a: Option<Seq<char>>, b: Option<Seq<char>>) -> Rank {
    match (a, b) {
        (None, None) => Rank::Same,
        (None, Some(_)) => Rank::Before,
        (Some(_), None) => Rank::After,
        (Some(x), Some(y)) => text_rank(x, y),
    }
}

/// The order of explanations: by body, then by complements.
pub open spec fn explanation_rank(a: ExplanationView, b: ExplanationView) -> Rank {
    text_rank(a.body, b.body).otherwise(texts_rank(a.complements, b.complements))
}

/// The order of examples: by sentence, then by complements.
pub open spec fn example_rank(a: ExampleView, b: ExampleView) -> Rank {
    text_rank(a.sentence, b.sentence).otherwise(texts_rank(a.complements, b.complements))
}

/// The order of examples, as a function.
pub open spec fn example_order() -> spec_fn(ExampleView, ExampleView) -> Rank {
    |a: ExampleView, b: ExampleView| example_rank(a, b)
}

/// The order of fields: by tag, then by explanation, then by examples.
pub open spec fn field_rank(a: FieldView, b: FieldView) -> Rank {
    ident_rank(a.ident, b.ident).otherwise(
        explanation_rank(a.explanation, b.explanation).otherwise(
            lex_rank(a.examples, b.examples, example_order()),
        ),
    )
}

/// The order of line numbers.
pub open spec fn line_rank(a: nat, b: nat) -> Rank {
    if a < b {
        Rank::Before
    } else if a == b {
        Rank::Same
    } else {
        Rank::After
    }
}

/// The order of entries: by headword, then by field, then by line.
pub open spec fn entry_rank(a: EntryView, b: EntryView) -> Rank {
    text_rank(a.headword, b.headword).otherwise(
        field_rank(a.field, b.field).otherwise(line_rank(a.line, b.line)),
    )
}

/// The order of entries, as a function.
pub open spec fn entry_order() -> spec_fn(EntryView, EntryView) -> Rank {
    |a: EntryView, b: EntryView| entry_rank(a, b)
}

/// `a` does not come after `b`.
pub open spec fn entry_leq() -> spec_fn(EntryView, EntryView) -> bool {
    |a: EntryView, b: EntryView| entry_rank(a, b) != Rank::After
}

/// Byte strings are totally ordered.
pub proof fn lemma_bytes_total()
    ensures
        is_total(lex_order(byte_order())),
{
    assert(is_total(byte_order()));
    lemma_lex_total(byte_order());
}

/// Texts are totally ordered: two texts with the same bytes are the same text.
pub proof fn lemma_text_total()
    ensures
        is_total(text_order()),
{
    lemma_bytes_total();
    let l = lex_order(byte_order());
    let t = text_order();
    assert forall|x: Seq<char>, y: Seq<char>| ((#[trigger] t(x, y)) == Rank::Same) <==> x
        == y by {
        assert(t(x, y) == l(encode_utf8(x), encode_utf8(y)));
        encode_utf8_decode_utf8(x);
        encode_utf8_decode_utf8(y);
    }
    assert forall|x: Seq<char>, y: Seq<char>| (#[trigger] t(x, y)) == t(y, x).flip() by {
        assert(t(x, y) == l(encode_utf8(x), encode_utf8(y)));
        assert(t(y, x) == l(encode_utf8(y), encode_utf8(x)));
    }
    assert forall|x: Seq<char>, y: Seq<char>, z: Seq<char>|
        (#[trigger] t(x, y)) == Rank::Before && (#[trigger] t(y, z)) == Rank::Before implies t(x, z)
        == Rank::Before by {
        assert(t(x, y) == l(encode_utf8(x), encode_utf8(y)));
        assert(t(y, z) == l(encode_utf8(y), encode_utf8(z)));
        assert(t(x, z) == l(encode_utf8(x), encode_utf8(z)));
    }
}

/// Lists of texts are totally ordered.
pub proof fn lemma_texts_total()
    ensures
        is_total(lex_order(text_order())),
{
    lemma_text_total();
    lemma_lex_total(text_order());
}

/// An order that goes by one part of a value and then by another is total
/// where the orders of the parts are and the two parts make up the value.
pub proof fn lemma_parts_total<T, A, B>(
    o: spec_fn(T, T) -> Rank,
    first: spec_fn(T) -> A,
    by_first: spec_fn(A, A) -> Rank,
    second: spec_fn(T) -> B,
    by_second: spec_fn(B, B) -> Rank,
)
    requires
        is_total(by_first),
        is_total(by_second),
        forall|x: T, y: T| #[trigger]
            o(x, y) == by_first(first(x), first(y)).otherwise(by_second(second(x), second(y))),
        forall|x: T, y: T|
            #![trigger first(x), first(y)]
            first(x) == first(y) && second(x) == second(y) ==> x == y,
    ensures
        is_total(o),
{
    assert forall|x: T, y: T| ((#[trigger] o(x, y)) == Rank::Same) <==> x == y by {
        let r = (by_first(first(x), first(y)), by_second(second(x), second(y)));
    }
    assert forall|x: T, y: T| (#[trigger] o(x, y)) == o(y, x).flip() by {
        let r = (by_first(first(x), first(y)), by_second(second(x), second(y)));
        let q = (by_first(first(y), first(x)), by_second(second(y), second(x)));
        assert(o(y, x) == q.0.otherwise(q.1));
    }
    assert forall|x: T, y: T, z: T|
        (#[trigger] o(x, y)) == Rank::Before && (#[trigger] o(y, z)) == Rank::Before implies o(x, z)
        == Rank::Before by {
        let f = (
            by_first(first(x), first(y)),
            by_first(first(y), first(z)),
            by_first(first(x), first(z)),
        );
        let g = (
            by_second(second(x), second(y)),
            by_second(second(y), second(z)),
            by_second(second(x), second(z)),
        );
        assert(o(x, z) == f.2.otherwise(g.2));
    }
}

/// The order of optional tags, as a function.
pub open spec fn ident_order() -> spec_fn(Option<Seq<char>>, Option<Seq<char>>) -> Rank {
    |a: Option<Seq<char>>, b: Option<Seq<char>>| ident_rank(a, b)
}

/// The order of explanations, as a function.
pub open spec fn explanation_order() -> spec_fn(ExplanationView, ExplanationView) -> Rank {
    |a: ExplanationView, b: ExplanationView| explanation_rank(a, b)
}

/// The order of fields, as a function.
pub open spec fn field_order() -> spec_fn(FieldView, FieldView) -> Rank {
    |a: FieldView, b: FieldView| field_rank(a, b)
}

/// The order of line numbers, as a function.
pub open spec fn line_order() -> spec_fn(nat, nat) -> Rank {
    |a: nat, b: nat| line_rank(a, b)
}

/// Optional tags are totally ordered.
pub proof fn lemma_ident_total()
    ensures
        is_total(ident_order()),
{
    lemma_text_total();
    let t = text_order();
    let o = ident_order();
    assert forall|x: Option<Seq<char>>, y: Option<Seq<char>>|
        ((#[trigger] o(x, y)) == Rank::Same) <==> x == y by {
        if x is Some && y is Some {
            let r = t(x->0, y->0);
        }
    }
    assert forall|x: Option<Seq<char>>, y: Option<Seq<char>>| (#[trigger] o(x, y)) == o(
        y,
        x,
    ).flip() by {
        if x is Some && y is Some {
            assert(t(x->0, y->0) == t(y->0, x->0).flip());
        }
    }
    assert forall|x: Option<Seq<char>>, y: Option<Seq<char>>, z: Option<Seq<char>>|
        (#[trigger] o(x, y)) == Rank::Before && (#[trigger] o(y, z)) == Rank::Before implies o(x, z)
        == Rank::Before by {
        if x is Some && y is Some && z is Some {
            let r = (t(x->0, y->0), t(y->0, z->0), t(x->0, z->0));
        }
    }
}

/// Examples are totally ordered.
pub proof fn lemma_example_total()
    ensures
        is_total(example_order()),
{
    lemma_text_total();
    lemma_texts_total();
    lemma_parts_total(
        example_order(),
        |e: ExampleView| e.sentence,
        text_order(),
        |e: ExampleView| e.complements,
        lex_order(text_order()),
    );
}

/// Explanations are totally ordered.
pub proof fn lemma_explanation_total()
    ensures
        is_total(explanation_order()),
{
    lemma_text_total();
    lemma_texts_total();
    lemma_parts_total(
        explanation_order(),
        |e: ExplanationView| e.body,
        text_order(),
        |e: ExplanationView| e.complements,
        lex_order(text_order()),
    );
}

/// Fields are totally ordered.
pub proof fn lemma_field_total()
    ensures
        is_total(field_order()),
{
    lemma_ident_total();
    lemma_explanation_total();
    lemma_example_total();
    lemma_lex_total(example_order());
    let rest = |a: (ExplanationView, Seq<ExampleView>), b: (ExplanationView, Seq<ExampleView>)|
        explanation_rank(a.0, b.0).otherwise(lex_rank(a.1, b.1, example_order()));
    lemma_parts_total(
        rest,
        |p: (ExplanationView, Seq<ExampleView>)| p.0,
        explanation_order(),
        |p: (ExplanationView, Seq<ExampleView>)| p.1,
        lex_order(example_order()),
    );
    lemma_parts_total(
        field_order(),
        |f: FieldView| f.ident,
        ident_order(),
        |f: FieldView| (f.explanation, f.examples),
        rest,
    );
}

/// Entries are totally ordered.
pub proof fn lemma_entry_total()
    ensures
        is_total(entry_order()),
        total_ordering(entry_leq()),
{
    lemma_text_total();
    lemma_field_total();
    assert(is_total(line_order()));
    let rest = |a: (FieldView, nat), b: (FieldView, nat)|
        field_rank(a.0, b.0).otherwise(line_rank(a.1, b.1));
    lemma_parts_total(
        rest,
        |p: (FieldView, nat)| p.0,
        field_order(),
        |p: (FieldView, nat)| p.1,
        line_order(),
    );
    assert forall|x: EntryView, y: EntryView|
        x.headword == y.headword && (x.field, x.line) == (y.field, y.line) implies x == y by {
        assert(x =~= y);
    }
    lemma_parts_total(
        entry_order(),
        |e: EntryView| e.headword,
        text_order(),
        |e: EntryView| (e.field, e.line),
        rest,
    );
    lemma_leq_total();
}

/// Not coming after is a total ordering of entries.
proof fn lemma_leq_total()
    requires
        is_total(entry_order()),
    ensures
        total_ordering(entry_leq()),
{
    let e = entry_order();
    let leq = entry_leq();
    assert forall|x: EntryView| #[trigger] leq(x, x) by {
        assert(e(x, x) == Rank::Same);
    }
    assert forall|x: EntryView, y: EntryView| #[trigger] leq(x, y) && #[trigger] leq(y, x) implies x
        == y by {
        assert(e(x, y) == e(y, x).flip());
    }
    assert forall|x: EntryView, y: EntryView| #[trigger] leq(x, y) || #[trigger] leq(y, x) by {
        assert(e(x, y) == e(y, x).flip());
    }
    assert forall|x: EntryView, y: EntryView, z: EntryView| #[trigger]
        leq(x, y) && #[trigger] leq(y, z) implies leq(x, z) by {
        let r = (e(x, y), e(y, z), e(x, z));
        if e(x, y) == Rank::Same {
            assert(x == y);
        } else if e(y, z) == Rank::Same {
            assert(y == z);
        }
    }
}

/// Ranks two byte strings.
pub fn rank_bytes(a: &[u8], b: &[u8]) -> (r: Rank)
    ensures
        r == bytes_rank(a@, b@),
{
    let mut i: usize = 0;
    while i < a.len() && i < b.len()
        invariant
            i <= a.len(),
            i <= b.len(),
            bytes_rank(a@, b@) == lex_rank_from(a@, b@, i as int, byte_order()),
        decreases a.len() - i,
    {
        if a[i] < b[i] {
            return Rank::Before;
        } else if a[i] > b[i] {
            return Rank::After;
        }
        i += 1;
    }
    if i < b.len() {
        Rank::Before
    } else if i < a.len() {
        Rank::After
    } else {
        Rank::Same
    }
}

/// Ranks two texts by their UTF-8 bytes.
pub fn rank_text(a: &str, b: &str) -> (r: Rank)
    ensures
        r == text_rank(a@, b@),
{
    rank_bytes(a.as_bytes(), b.as_bytes())
}

/// Ranks two lists of complements.
pub fn rank_complements(a: &Vec<Complement>, b: &Vec<Complement>) -> (r: Rank)
    ensures
        r == texts_rank(complements_view(a@), complements_view(b@)),
{
    let ghost x = complements_view(a@);
    let ghost y = complements_view(b@);
    let mut i: usize = 0;
    while i < a.len() && i < b.len()
        invariant
            i <= a.len(),
            i <= b.len(),
            x == complements_view(a@),
            y == complements_view(b@),
            texts_rank(x, y) == lex_rank_from(x, y, i as int, text_order()),
        decreases a.len() - i,
    {
        let r = rank_text(a[i].body.as_str(), b[i].body.as_str());
        assert(r == text_order()(x[i as int], y[i as int]));
        match r {
            Rank::Same => {},
            _ => {
                return r;
            },
        }
        i += 1;
    }
    if i < b.len() {
        Rank::Before
    } else if i < a.len() {
        Rank::After
    } else {
        Rank::Same
    }
}

/// Ranks two optional tags.
pub fn rank_ident(a: &Option<String>, b: &Option<String>) -> (r: Rank)
    ensures
        r == ident_rank(crate::field::ident_view(*a), crate::field::ident_view(*b)),
{
    match (a, b) {
        (None, None) => Rank::Same,
        (None, Some(_)) => Rank::Before,
        (Some(_), None) => Rank::After,
        (Some(x), Some(y)) => rank_text(x.as_str(), y.as_str()),
    }
}

/// Ranks two explanations.
pub fn rank_explanation(a: &Explanation, b: &Explanation) -> (r: Rank)
    ensures
        r == explanation_rank(a@, b@),
{
    match rank_text(a.body.as_str(), b.body.as_str()) {
        Rank::Same => rank_complements(&a.complements, &b.complements),
        r => r,
    }
}

/// Ranks two examples.
pub fn rank_example(a: &Example, b: &Example) -> (r: Rank)
    ensures
        r == example_rank(a@, b@),
{
    match rank_text(a.sentence.as_str(), b.sentence.as_str()) {
        Rank::Same => rank_complements(&a.complements, &b.complements),
        r => r,
    }
}

/// Ranks two lists of examples.
pub fn rank_examples(a: &Vec<Example>, b: &Vec<Example>) -> (r: Rank)
    ensures
        r == lex_rank(examples_view(a@), examples_view(b@), example_order()),
{
    let ghost x = examples_view(a@);
    let ghost y = examples_view(b@);
    let mut i: usize = 0;
    while i < a.len() && i < b.len()
        invariant
            i <= a.len(),
            i <= b.len(),
            x == examples_view(a@),
            y == examples_view(b@),
            lex_rank(x, y, example_order()) == lex_rank_from(x, y, i as int, example_order()),
        decreases a.len() - i,
    {
        let r = rank_example(&a[i], &b[i]);
        assert(r == example_order()(x[i as int], y[i as int]));
        match r {
            Rank::Same => {},
            _ => {
                return r;
            },
        }
        i += 1;
    }
    if i < b.len() {
        Rank::Before
    } else if i < a.len() {
        Rank::After
    } else {
        Rank::Same
    }
}

/// Ranks two fields: by tag, then by explanation, then by examples.
pub fn rank_field(a: &Field, b: &Field) -> (r: Rank)
    ensures
        r == field_rank(a@, b@),
{
    match rank_ident(&a.ident, &b.ident) {
        Rank::Same => match rank_explanation(&a.explanation, &b.explanation) {
            Rank::Same => rank_examples(&a.examples, &b.examples),
            r => r,
        },
        r => r,
    }
}

/// Ranks two entries: by headword, then by field, then by line.
pub fn rank_entry(a: &Entry, b: &Entry) -> (r: Rank)
    ensures
        r == entry_rank(a@, b@),
{
    match rank_text(a.headword.as_str(), b.headword.as_str()) {
        Rank::Same => match rank_field(&a.field, &b.field) {
            Rank::Same => if a.line < b.line {
                Rank::Before
            } else if a.line == b.line {
                Rank::Same
            } else {
                Rank::After
            },
            r => r,
        },
        r => r,
    }
}

} // verus!
