//! The mathematical model of the intermediate representation.
//!
//! A vector of render elements is the flat form of a sequence of nested
//! documents. Contracts of the formatter speak of documents, which do not
//! depend on the position at which they are written; `flatten` says which
//! elements a sequence of documents becomes at a given position.
use vstd::prelude::*;

use crate::renderer::{Element, GroupParentFit};

verus! {

/// A nested document.
pub enum Doc {
    /// An element that spans no others.
    Leaf(Element),
    /// Documents one or more levels further to the right.
    Indent { level: int, body: Seq<Doc> },
    /// Documents that break together.
    Group { fit: GroupParentFit, body: Seq<Doc> },
    /// Documents that break evenly.
    Balanced { body: Seq<Doc> },
    /// Documents that only appear where the surrounding group breaks.
    IfMultiline { body: Seq<Doc> },
    /// Documents that only appear where the surrounding group does not break.
    IfSingleLine { body: Seq<Doc> },
}

/// One space.
pub open spec fn space() -> Seq<Doc> {
    seq![Doc::Leaf(Element::Space)]
}

/// One space that only appears where the surrounding group does not break.
pub open spec fn space_single_line_only() -> Seq<Doc> {
    seq![Doc::Leaf(Element::SpaceSingleLineOnly)]
}

/// A line break if the surrounding group breaks.
pub open spec fn soft_line() -> Seq<Doc> {
    seq![Doc::Leaf(Element::SoftLine)]
}

/// A line break.
pub open spec fn hard_line() -> Seq<Doc> {
    seq![Doc::Leaf(Element::HardLine)]
}

/// An empty line.
pub open spec fn blank_line() -> Seq<Doc> {
    seq![Doc::Leaf(Element::BlankLine)]
}

/// `count` empty lines.
pub open spec fn blank_lines(count: int) -> Seq<Doc> {
    Seq::new(count as nat, |i: int| Doc::Leaf(Element::BlankLine))
}

/// A line break and an empty line.
pub open spec fn hard_and_blank_line() -> Seq<Doc> {
    hard_line() + blank_line()
}

/// A possible line break of a balanced group.
pub open spec fn balanced_line() -> Seq<Doc> {
    seq![Doc::Leaf(Element::BalancedLine)]
}

/// Makes the surrounding groups break.
pub open spec fn force_break() -> Seq<Doc> {
    seq![Doc::Leaf(Element::ForceBreakingParent)]
}

/// A range of the source.
pub open spec fn source_text(start: int, end: int) -> Seq<Doc> {
    seq![Doc::Leaf(Element::Text { start, end })]
}

/// A range of the source that is copied as it is.
pub open spec fn unformatted(start: int, end: int) -> Seq<Doc> {
    seq![Doc::Leaf(Element::Unformatted { start, end })]
}

/// Text that stands nowhere in the source, as bytes.
pub open spec fn produced(bytes: Seq<u8>) -> Seq<Doc> {
    seq![Doc::Leaf(Element::Produced { bytes })]
}

/// A fixed piece of punctuation.
pub open spec fn fixed(text: Seq<char>) -> Seq<Doc> {
    seq![Doc::Leaf(Element::Static { text })]
}

/// Documents further to the right.
pub open spec fn indented(level: int, body: Seq<Doc>) -> Seq<Doc> {
    seq![Doc::Indent { level, body }]
}

/// Documents that break together.
pub open spec fn grouped(body: Seq<Doc>) -> Seq<Doc> {
    seq![Doc::Group { fit: GroupParentFit::Full, body }]
}

/// Documents that break together, of which only the part before the first line
/// break counts when the surrounding group is laid out.
pub open spec fn grouped_until_first_line_break(body: Seq<Doc>) -> Seq<Doc> {
    seq![Doc::Group { fit: GroupParentFit::UntilFirstLineBreak, body }]
}

/// Documents that break evenly.
pub open spec fn balanced(body: Seq<Doc>) -> Seq<Doc> {
    seq![Doc::Balanced { body }]
}

/// Documents that only appear where the surrounding group breaks.
pub open spec fn if_multiline(body: Seq<Doc>) -> Seq<Doc> {
    seq![Doc::IfMultiline { body }]
}

/// Documents that only appear where the surrounding group does not break.
pub open spec fn if_single_line(body: Seq<Doc>) -> Seq<Doc> {
    seq![Doc::IfSingleLine { body }]
}

/// No documents.
pub open spec fn nothing() -> Seq<Doc> {
    Seq::empty()
}

/// Putting documents one after the other is associative.
pub broadcast proof fn lemma_concat_is_associative(left: Seq<Doc>, middle: Seq<Doc>, right: Seq<Doc>)
    ensures
        #[trigger] ((left + middle) + right) == left + (middle + right),
{
    assert((left + middle) + right =~= left + (middle + right));
}

/// Nothing may stand behind documents without changing them.
pub broadcast proof fn lemma_concat_nothing(docs: Seq<Doc>)
    ensures
        #[trigger] (docs + Seq::<Doc>::empty()) == docs,
{
    assert(docs + Seq::<Doc>::empty() =~= docs);
}

/// Nothing may stand in front of documents without changing them.
pub broadcast proof fn lemma_nothing_concat(docs: Seq<Doc>)
    ensures
        #[trigger] (Seq::<Doc>::empty() + docs) == docs,
{
    assert(Seq::<Doc>::empty() + docs =~= docs);
}

/// What holds of documents that are put one after the other.
pub broadcast group group_concat {
    lemma_concat_is_associative,
    lemma_concat_nothing,
    lemma_nothing_concat,
}

/// True of the elements that span no others.
pub open spec fn is_leaf_element(element: Element) -> bool {
    !(element is Indent || element is Group || element is BalancedGroup || element is Branch)
}

/// The element that stands in front of the body of a nested document, if the
/// body takes the positions from `start` to `end`.
pub open spec fn header(doc: Doc, start: int, end: int) -> Element {
    match doc {
        Doc::Leaf(element) => element,
        Doc::Indent { level, body } => Element::Indent { level, start, end },
        Doc::Group { fit, body } => Element::Group { fit, start, end },
        Doc::Balanced { body } => Element::BalancedGroup { start, end },
        Doc::IfMultiline { body } => Element::Branch { single: None, multi: Some((start, end)) },
        Doc::IfSingleLine { body } => Element::Branch { single: Some((start, end)), multi: None },
    }
}

/// The number of elements that a document becomes.
pub open spec fn doc_size(doc: Doc) -> nat
    decreases doc,
{
    match doc {
        Doc::Leaf(element) => 1,
        Doc::Indent { level, body } => 1 + docs_size(body),
        Doc::Group { fit, body } => 1 + docs_size(body),
        Doc::Balanced { body } => 1 + docs_size(body),
        Doc::IfMultiline { body } => 1 + docs_size(body),
        Doc::IfSingleLine { body } => 1 + docs_size(body),
    }
}

/// The number of elements that a sequence of documents becomes.
pub open spec fn docs_size(docs: Seq<Doc>) -> nat
    decreases docs,
{
    if docs.len() == 0 {
        0
    } else {
        docs_size(docs.drop_last()) + doc_size(docs.last())
    }
}

/// The elements that one document becomes, written at position `position`.
pub open spec fn flatten_one(doc: Doc, position: int) -> Seq<Element>
    decreases doc,
{
    match doc {
        Doc::Leaf(element) => seq![element],
        Doc::Indent { level, body } => seq![header(doc, position + 1, position + 1 + docs_size(body))]
            + flatten(body, position + 1),
        Doc::Group { fit, body } => seq![header(doc, position + 1, position + 1 + docs_size(body))]
            + flatten(body, position + 1),
        Doc::Balanced { body } => seq![header(doc, position + 1, position + 1 + docs_size(body))]
            + flatten(body, position + 1),
        Doc::IfMultiline { body } => seq![
            header(doc, position + 1, position + 1 + docs_size(body)),
        ] + flatten(body, position + 1),
        Doc::IfSingleLine { body } => seq![
            header(doc, position + 1, position + 1 + docs_size(body)),
        ] + flatten(body, position + 1),
    }
}

/// The elements that a sequence of documents becomes, written from position
/// `position` on.
pub open spec fn flatten(docs: Seq<Doc>, position: int) -> Seq<Element>
    decreases docs,
{
    if docs.len() == 0 {
        Seq::empty()
    } else {
        flatten(docs.drop_last(), position) + flatten_one(
            docs.last(),
            position + docs_size(docs.drop_last()),
        )
    }
}

/// The size of a sequence of documents is the length of its flat form.
pub proof fn lemma_flatten_len(docs: Seq<Doc>, position: int)
    ensures
        flatten(docs, position).len() == docs_size(docs),
    decreases docs,
{
    if docs.len() > 0 {
        lemma_flatten_len(docs.drop_last(), position);
        lemma_flatten_one_len(docs.last(), position + docs_size(docs.drop_last()));
    }
}

/// The size of a document is the length of its flat form.
pub proof fn lemma_flatten_one_len(doc: Doc, position: int)
    ensures
        flatten_one(doc, position).len() == doc_size(doc),
    decreases doc,
{
    match doc {
        Doc::Leaf(element) => {},
        Doc::Indent { level, body } => lemma_flatten_len(body, position + 1),
        Doc::Group { fit, body } => lemma_flatten_len(body, position + 1),
        Doc::Balanced { body } => lemma_flatten_len(body, position + 1),
        Doc::IfMultiline { body } => lemma_flatten_len(body, position + 1),
        Doc::IfSingleLine { body } => lemma_flatten_len(body, position + 1),
    }
}

} // verus!
