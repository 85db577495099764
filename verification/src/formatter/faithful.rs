//! Layouts whose text comes from the source.
use vstd::prelude::*;

use crate::document::{
    balanced, balanced_line, blank_line, blank_lines, fixed, force_break, grouped,
    grouped_until_first_line_break, hard_and_blank_line, hard_line, if_multiline, if_single_line,
    indented, is_leaf_element, nothing, soft_line, space, space_single_line_only, Doc,
};
use crate::node_kind::GDScriptNodeKind;
use crate::parser::{is_string_kind, ParseInput};
use crate::renderer::Element;
use crate::string_literal::requoted;

verus! {

/// True of a range of the source that a node without children takes up, or the
/// backslash of one that continues a line.
pub open spec fn is_token(input: ParseInput, node: int, start: int, end: int) -> bool {
    &&& input.tree.has(node)
    &&& start == input.tree.start_of(node)
    &&& end == input.tree.end_of(node) && input.tree.child_count_of(node) == 0
        || input.tree.kind_of(node) == GDScriptNodeKind::LineContinuation && end == start + 1
}

/// True of a range of the source that a node takes up.
pub open spec fn is_node_range(input: ParseInput, node: int, start: int, end: int) -> bool {
    input.tree.has(node) && start == input.tree.start_of(node) && end == input.tree.end_of(node)
}

/// True of a range of the source that a disabled region takes up.
pub open spec fn is_region_range(input: ParseInput, start: int, end: int) -> bool {
    exists|index: int|
        #![trigger input.disabled_regions@[index]]
        0 <= index < input.disabled_regions@.len() && input.disabled_regions@[index].start == start
            && input.disabled_regions@[index].end == end
}

/// True of the bytes of a string of the script with other quotes.
pub open spec fn is_requoted_string(input: ParseInput, node: int, bytes: Seq<u8>) -> bool {
    input.tree.has(node) && is_string_kind(input.tree.kind_of(node)) && requoted(
        input.text_of(node),
        input.quote_style,
    ) == Some(bytes)
}

/// True of a range that is a token of the source.
pub open spec fn is_some_token(input: ParseInput, start: int, end: int) -> bool {
    exists|node: int| #[trigger] is_token(input, node, start, end)
}

/// True of a range that a node of the tree takes up.
pub open spec fn is_some_node_range(input: ParseInput, start: int, end: int) -> bool {
    exists|node: int| #[trigger] is_node_range(input, node, start, end)
}

/// True of bytes that are a string of the script with other quotes.
pub open spec fn is_some_requoted_string(input: ParseInput, bytes: Seq<u8>) -> bool {
    exists|node: int| #[trigger] is_requoted_string(input, node, bytes)
}

/// True of the punctuation that a layout may add: a comma, parentheses, and a
/// backslash.
pub open spec fn is_added_punctuation(text: Seq<char>) -> bool {
    text == ","@ || text == "("@ || text == ")"@ || text == "\\"@
}

/// True of an element whose text comes from the source: a token, a node or a
/// disabled region as it stands there, a string with other quotes, or
/// punctuation that a layout may add. Spaces and line breaks hold no text.
pub open spec fn comes_from_source(input: ParseInput, element: Element) -> bool {
    match element {
        Element::Text { start, end } => is_some_token(input, start, end),
        Element::Unformatted { start, end } => is_region_range(input, start, end)
            || is_some_node_range(input, start, end),
        Element::Produced { bytes } => is_some_requoted_string(input, bytes),
        Element::Static { text } => is_added_punctuation(text),
        _ => is_leaf_element(element),
    }
}

/// True of a document whose text comes from the source.
pub open spec fn doc_is_faithful(input: ParseInput, doc: Doc) -> bool
    decreases doc,
{
    match doc {
        Doc::Leaf(element) => comes_from_source(input, element),
        Doc::Indent { body, .. } => is_faithful(input, body),
        Doc::Group { body, .. } => is_faithful(input, body),
        Doc::Balanced { body } => is_faithful(input, body),
        Doc::IfMultiline { body } => is_faithful(input, body),
        Doc::IfSingleLine { body } => is_faithful(input, body),
    }
}

/// True of documents whose text comes from the source.
pub open spec fn is_faithful(input: ParseInput, docs: Seq<Doc>) -> bool
    decreases docs,
{
    forall|i: int| 0 <= i < docs.len() ==> doc_is_faithful(input, #[trigger] docs[i])
}

/// What is put together from faithful parts is faithful.
pub broadcast proof fn lemma_concat(input: ParseInput, first: Seq<Doc>, second: Seq<Doc>)
    requires
        is_faithful(input, first),
        is_faithful(input, second),
    ensures
        #[trigger] is_faithful(input, first + second),
{
    let all = first + second;
    assert forall|i: int| 0 <= i < all.len() implies doc_is_faithful(input, #[trigger] all[i]) by {
        if i < first.len() {
            assert(all[i] == first[i]);
        } else {
            assert(all[i] == second[i - first.len()]);
        }
    }
}

/// A single faithful document is faithful.
pub proof fn lemma_single(input: ParseInput, doc: Doc)
    requires
        doc_is_faithful(input, doc),
    ensures
        is_faithful(input, seq![doc]),
{
}

/// Spaces and line breaks are faithful.
pub broadcast proof fn lemma_blanks(input: ParseInput)
    ensures
        #![trigger input.tree]
        is_faithful(input, nothing()),
        is_faithful(input, space()),
        is_faithful(input, space_single_line_only()),
        is_faithful(input, soft_line()),
        is_faithful(input, hard_line()),
        is_faithful(input, blank_line()),
        is_faithful(input, hard_and_blank_line()),
        is_faithful(input, balanced_line()),
        is_faithful(input, force_break()),
{
    lemma_single(input, Doc::Leaf(Element::Space));
    lemma_single(input, Doc::Leaf(Element::SpaceSingleLineOnly));
    lemma_single(input, Doc::Leaf(Element::SoftLine));
    lemma_single(input, Doc::Leaf(Element::HardLine));
    lemma_single(input, Doc::Leaf(Element::BlankLine));
    lemma_single(input, Doc::Leaf(Element::BalancedLine));
    lemma_single(input, Doc::Leaf(Element::ForceBreakingParent));
    lemma_concat(input, hard_line(), blank_line());
}

/// Empty lines are faithful.
pub broadcast proof fn lemma_blank_lines(input: ParseInput, count: int)
    ensures
        #[trigger] is_faithful(input, blank_lines(count)),
{
    let docs = blank_lines(count);
    assert forall|i: int| 0 <= i < docs.len() implies doc_is_faithful(
        input,
        #[trigger] docs[i],
    ) by {
        assert(docs[i] == Doc::Leaf(Element::BlankLine));
    }
}

/// Punctuation that a layout may add is faithful.
pub broadcast proof fn lemma_fixed(input: ParseInput, text: Seq<char>)
    requires
        is_added_punctuation(text),
    ensures
        #[trigger] is_faithful(input, fixed(text)),
{
    lemma_single(input, Doc::Leaf(Element::Static { text }));
}

/// An indent is as faithful as what is in it.
pub broadcast proof fn lemma_indented(input: ParseInput, level: int, body: Seq<Doc>)
    requires
        is_faithful(input, body),
    ensures
        #[trigger] is_faithful(input, indented(level, body)),
{
    lemma_single(input, Doc::Indent { level, body });
}

/// A group is as faithful as what is in it.
pub broadcast proof fn lemma_grouped(input: ParseInput, body: Seq<Doc>)
    requires
        is_faithful(input, body),
    ensures
        #[trigger] is_faithful(input, grouped(body)),
{
    lemma_single(input, grouped(body)[0]);
    assert(grouped(body) =~= seq![grouped(body)[0]]);
}

/// A group is as faithful as what is in it.
pub broadcast proof fn lemma_grouped_until_first_line_break(input: ParseInput, body: Seq<Doc>)
    requires
        is_faithful(input, body),
    ensures
        #[trigger] is_faithful(input, grouped_until_first_line_break(body)),
{
    lemma_single(input, grouped_until_first_line_break(body)[0]);
    assert(grouped_until_first_line_break(body) =~= seq![grouped_until_first_line_break(body)[0]]);
}

/// A balanced group is as faithful as what is in it.
pub broadcast proof fn lemma_balanced(input: ParseInput, body: Seq<Doc>)
    requires
        is_faithful(input, body),
    ensures
        #[trigger] is_faithful(input, balanced(body)),
{
    lemma_single(input, Doc::Balanced { body });
}

/// A branch is as faithful as what is in it.
pub broadcast proof fn lemma_if_multiline(input: ParseInput, body: Seq<Doc>)
    requires
        is_faithful(input, body),
    ensures
        #[trigger] is_faithful(input, if_multiline(body)),
{
    lemma_single(input, Doc::IfMultiline { body });
}

/// A branch is as faithful as what is in it.
pub broadcast proof fn lemma_if_single_line(input: ParseInput, body: Seq<Doc>)
    requires
        is_faithful(input, body),
    ensures
        #[trigger] is_faithful(input, if_single_line(body)),
{
    lemma_single(input, Doc::IfSingleLine { body });
}

pub broadcast group group_faithful {
    lemma_concat,
    lemma_blanks,
    lemma_blank_lines,
    lemma_fixed,
    lemma_indented,
    lemma_grouped,
    lemma_grouped_until_first_line_break,
    lemma_balanced,
    lemma_if_multiline,
    lemma_if_single_line,
}

} // verus!
