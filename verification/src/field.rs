//! The structured form of one dictionary entry, and its mathematical view.

use vstd::prelude::*;

verus! {

/// A short annotation attached to an explanation or to an example.
#[derive(Debug, PartialEq, Eq, PartialOrd, Ord)]
pub struct Complement {
    pub body: String,
}

/// A usage sentence with its own annotations.
#[derive(Debug, PartialEq, Eq, PartialOrd, Ord)]
pub struct Example {
    pub sentence: String,
    pub complements: Vec<Complement>,
}

/// The gloss of a field with its annotations.
#[derive(Debug, PartialEq, Eq, PartialOrd, Ord)]
pub struct Explanation {
    pub body: String,
    pub complements: Vec<Complement>,
}

/// One sense of a headword: an optional tag, a gloss and usage examples.
#[derive(Debug, PartialEq, Eq, PartialOrd, Ord)]
pub struct Field {
    pub ident: Option<String>,
    pub explanation: Explanation,
    pub examples: Vec<Example>,
}

/// What an [`Example`] holds, as characters.
pub struct ExampleView {
    pub sentence: Seq<char>,
    pub complements: Seq<Seq<char>>,
}

/// What an [`Explanation`] holds, as characters.
pub struct ExplanationView {
    pub body: Seq<char>,
    pub complements: Seq<Seq<char>>,
}

/// What a [`Field`] holds, as characters.
pub struct FieldView {
    pub ident: Option<Seq<char>>,
    pub explanation: ExplanationView,
    pub examples: Seq<ExampleView>,
}

impl View for Complement {
    type V = Seq<char>;

    open spec fn view(&self) -> Seq<char> {
        self.body@
    }
}

/// The bodies of a list of complements, in order.
pub open spec fn complements_view(list: Seq<Complement>) -> Seq<Seq<char>> {
    Seq::new(list.len(), |i: int| list[i]@)
}

impl View for Example {
    type V = ExampleView;

    open spec fn view(&self) -> ExampleView {
        ExampleView { sentence: self.sentence@, complements: complements_view(self.complements@) }
    }
}

/// The views of a list of examples, in order.
pub open spec fn examples_view(list: Seq<Example>) -> Seq<ExampleView> {
    Seq::new(list.len(), |i: int| list[i]@)
}

impl View for Explanation {
    type V = ExplanationView;

    open spec fn view(&self) -> ExplanationView {
        ExplanationView { body: self.body@, complements: complements_view(self.complements@) }
    }
}

/// The view of an optional tag.
pub open spec fn ident_view(ident: Option<String>) -> Option<Seq<char>> {
    match ident {
        Some(s) => Some(s@),
        None => None,
    }
}

impl View for Field {
    type V = FieldView;

    open spec fn view(&self) -> FieldView {
        FieldView {
            ident: ident_view(self.ident),
            explanation: self.explanation@,
            examples: examples_view(self.examples@),
        }
    }
}

/// The views of a group of fields, in order.
pub open spec fn fields_view(list: Seq<Field>) -> Seq<FieldView> {
    Seq::new(list.len(), |i: int| list[i]@)
}

/// A headword with one of its fields and the number of the line that held
/// them, counted from zero.
#[derive(Debug, PartialEq, Eq, PartialOrd, Ord)]
pub struct Entry {
    pub headword: String,
    pub field: Field,
    pub line: usize,
}

/// What an [`Entry`] holds, as characters.
#[verifier::ext_equal]
pub struct EntryView {
    pub headword: Seq<char>,
    pub field: FieldView,
    pub line: nat,
}

impl View for Entry {
    type V = EntryView;

    open spec fn view(&self) -> EntryView {
        EntryView { headword: self.headword@, field: self.field@, line: self.line as nat }
    }
}

/// The views of a list of entries, in order.
pub open spec fn entries_view(list: Seq<Entry>) -> Seq<EntryView> {
    Seq::new(list.len(), |i: int| list[i]@)
}

} // verus!
