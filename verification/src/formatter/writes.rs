//! How often a layout writes a byte of the source.
use vstd::prelude::*;

use crate::document::{
    balanced, balanced_line, blank_line, blank_lines, fixed, force_break, grouped,
    grouped_until_first_line_break, hard_and_blank_line, hard_line, if_multiline, if_single_line,
    indented, nothing, produced, soft_line, source_text, space, space_single_line_only, unformatted,
    Doc,
};
use crate::renderer::Element;

verus! {

/// True of an element that copies the byte at an offset of the source.
pub open spec fn copies(element: Element, byte: int) -> bool {
    match element {
        Element::Text { start, end } => start <= byte < end,
        Element::Unformatted { start, end } => start <= byte < end,
        _ => false,
    }
}

/// How often a document copies the byte at an offset of the source.
pub open spec fn doc_writes(doc: Doc, byte: int) -> nat
    decreases doc,
{
    match doc {
        Doc::Leaf(element) => if copies(element, byte) {
            1
        } else {
            0
        },
        Doc::Indent { body, .. } => writes(body, byte),
        Doc::Group { body, .. } => writes(body, byte),
        Doc::Balanced { body } => writes(body, byte),
        Doc::IfMultiline { body } => writes(body, byte),
        Doc::IfSingleLine { body } => writes(body, byte),
    }
}

/// How often documents copy the byte at an offset of the source.
pub open spec fn writes(docs: Seq<Doc>, byte: int) -> nat
    decreases docs,
{
    if docs.len() == 0 {
        0
    } else {
        writes(docs.drop_last(), byte) + doc_writes(docs[docs.len() - 1], byte)
    }
}

/// True of documents that copy a byte once at most, and only where it stands
/// between two offsets.
pub open spec fn once(docs: Seq<Doc>, byte: int, start: int, end: int) -> bool {
    writes(docs, byte) <= if start <= byte < end {
        1nat
    } else {
        0nat
    }
}

/// A single document.
pub proof fn lemma_writes_single(doc: Doc, byte: int)
    ensures
        writes(seq![doc], byte) == doc_writes(doc, byte),
{
    assert(seq![doc].drop_last() =~= Seq::<Doc>::empty());
    assert(writes(Seq::<Doc>::empty(), byte) == 0);
}

/// Documents one after the other copy what each of them copies.
pub broadcast proof fn lemma_writes_concat(first: Seq<Doc>, second: Seq<Doc>, byte: int)
    ensures
        #[trigger] writes(first + second, byte) == writes(first, byte) + writes(second, byte),
    decreases second.len(),
{
    let all = first + second;
    if second.len() == 0 {
        assert(all =~= first);
    } else {
        assert(all.drop_last() =~= first + second.drop_last());
        assert(all[all.len() - 1] == second[second.len() - 1]);
        lemma_writes_concat(first, second.drop_last(), byte);
    }
}

/// Spaces, line breaks and punctuation copy nothing.
pub broadcast proof fn lemma_writes_blanks(byte: int)
    ensures
        #![trigger writes(nothing(), byte)]
        #![trigger writes(space(), byte)]
        #![trigger writes(space_single_line_only(), byte)]
        #![trigger writes(soft_line(), byte)]
        #![trigger writes(hard_line(), byte)]
        #![trigger writes(blank_line(), byte)]
        #![trigger writes(hard_and_blank_line(), byte)]
        #![trigger writes(balanced_line(), byte)]
        #![trigger writes(force_break(), byte)]
        writes(nothing(), byte) == 0,
        writes(space(), byte) == 0,
        writes(space_single_line_only(), byte) == 0,
        writes(soft_line(), byte) == 0,
        writes(hard_line(), byte) == 0,
        writes(blank_line(), byte) == 0,
        writes(hard_and_blank_line(), byte) == 0,
        writes(balanced_line(), byte) == 0,
        writes(force_break(), byte) == 0,
{
    lemma_writes_single(Doc::Leaf(Element::Space), byte);
    lemma_writes_single(Doc::Leaf(Element::SpaceSingleLineOnly), byte);
    lemma_writes_single(Doc::Leaf(Element::SoftLine), byte);
    lemma_writes_single(Doc::Leaf(Element::HardLine), byte);
    lemma_writes_single(Doc::Leaf(Element::BlankLine), byte);
    lemma_writes_single(Doc::Leaf(Element::BalancedLine), byte);
    lemma_writes_single(Doc::Leaf(Element::ForceBreakingParent), byte);
    lemma_writes_concat(hard_line(), blank_line(), byte);
}

/// Documents that are all empty lines copy nothing.
proof fn lemma_writes_no_text(docs: Seq<Doc>, byte: int)
    requires
        forall|i: int| 0 <= i < docs.len() ==> #[trigger] docs[i] == Doc::Leaf(Element::BlankLine),
    ensures
        writes(docs, byte) == 0,
    decreases docs.len(),
{
    if docs.len() > 0 {
        assert(doc_writes(docs[docs.len() - 1], byte) == 0);
        lemma_writes_no_text(docs.drop_last(), byte);
    }
}

/// Empty lines copy nothing.
pub broadcast proof fn lemma_writes_blank_lines(count: int, byte: int)
    ensures
        #[trigger] writes(blank_lines(count), byte) == 0,
{
    lemma_writes_no_text(blank_lines(count), byte);
}

/// Text that does not stand in the source copies nothing.
pub broadcast proof fn lemma_writes_fixed(text: Seq<char>, byte: int)
    ensures
        #[trigger] writes(fixed(text), byte) == 0,
{
    lemma_writes_single(Doc::Leaf(Element::Static { text }), byte);
}

/// Text that does not stand in the source copies nothing.
pub broadcast proof fn lemma_writes_produced(bytes: Seq<u8>, byte: int)
    ensures
        #[trigger] writes(produced(bytes), byte) == 0,
{
    lemma_writes_single(Doc::Leaf(Element::Produced { bytes }), byte);
}

/// A range of the source copies the bytes in it.
pub broadcast proof fn lemma_writes_text(start: int, end: int, byte: int)
    ensures
        #[trigger] writes(source_text(start, end), byte) == if start <= byte < end {
            1nat
        } else {
            0nat
        },
{
    lemma_writes_single(Doc::Leaf(Element::Text { start, end }), byte);
}

/// A range of the source copies the bytes in it.
pub broadcast proof fn lemma_writes_unformatted(start: int, end: int, byte: int)
    ensures
        #[trigger] writes(unformatted(start, end), byte) == if start <= byte < end {
            1nat
        } else {
            0nat
        },
{
    lemma_writes_single(Doc::Leaf(Element::Unformatted { start, end }), byte);
}

/// An indent copies what is in it.
pub broadcast proof fn lemma_writes_indented(level: int, body: Seq<Doc>, byte: int)
    ensures
        #[trigger] writes(indented(level, body), byte) == writes(body, byte),
{
    lemma_writes_single(Doc::Indent { level, body }, byte);
}

/// A group copies what is in it.
pub broadcast proof fn lemma_writes_grouped(body: Seq<Doc>, byte: int)
    ensures
        #[trigger] writes(grouped(body), byte) == writes(body, byte),
{
    lemma_writes_single(grouped(body)[0], byte);
    assert(grouped(body) =~= seq![grouped(body)[0]]);
}

/// A group copies what is in it.
pub broadcast proof fn lemma_writes_grouped_until_first_line_break(body: Seq<Doc>, byte: int)
    ensures
        #[trigger] writes(grouped_until_first_line_break(body), byte) == writes(body, byte),
{
    lemma_writes_single(grouped_until_first_line_break(body)[0], byte);
    assert(grouped_until_first_line_break(body) =~= seq![grouped_until_first_line_break(body)[0]]);
}

/// A balanced group copies what is in it.
pub broadcast proof fn lemma_writes_balanced(body: Seq<Doc>, byte: int)
    ensures
        #[trigger] writes(balanced(body), byte) == writes(body, byte),
{
    lemma_writes_single(Doc::Balanced { body }, byte);
}

/// A branch copies what is in it.
pub broadcast proof fn lemma_writes_if_multiline(body: Seq<Doc>, byte: int)
    ensures
        #[trigger] writes(if_multiline(body), byte) == writes(body, byte),
{
    lemma_writes_single(Doc::IfMultiline { body }, byte);
}

/// A branch copies what is in it.
pub broadcast proof fn lemma_writes_if_single_line(body: Seq<Doc>, byte: int)
    ensures
        #[trigger] writes(if_single_line(body), byte) == writes(body, byte),
{
    lemma_writes_single(Doc::IfSingleLine { body }, byte);
}

pub broadcast group group_writes {
    lemma_writes_concat,
    lemma_writes_blanks,
    lemma_writes_blank_lines,
    lemma_writes_fixed,
    lemma_writes_produced,
    lemma_writes_text,
    lemma_writes_unformatted,
    lemma_writes_indented,
    lemma_writes_grouped,
    lemma_writes_grouped_until_first_line_break,
    lemma_writes_balanced,
    lemma_writes_if_multiline,
    lemma_writes_if_single_line,
}

} // verus!
