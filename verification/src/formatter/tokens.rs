//! The tokens of a script, and which of them a layout holds.
use vstd::prelude::*;

use crate::document::{balanced, grouped, grouped_until_first_line_break, indented, Doc};
use crate::formatter::regions::{overlap, overlaps_a_region, Overlap};
use crate::node_kind::GDScriptNodeKind;
use crate::parser::ParseInput;
use crate::renderer::Element;
use crate::string_literal::requoted;

verus! {

/// True of a node that is laid out as one piece of text: one without children,
/// unless it is empty, or one whose source is not broken up.
pub open spec fn is_token_node(input: ParseInput, node: int) -> bool {
    if input.tree.child_count_of(node) == 0 {
        input.tree.start_of(node) < input.tree.end_of(node)
    } else {
        matches!(
            input.tree.kind_of(node),
            GDScriptNodeKind::String
                | GDScriptNodeKind::StringName
                | GDScriptNodeKind::NodePath
                | GDScriptNodeKind::GetNode
                | GDScriptNodeKind::RegionStart
                | GDScriptNodeKind::RegionEnd
                | GDScriptNodeKind::Error
        )
    }
}

/// True of an element that stands for a token: its source, a range of the source
/// around it that is copied as it is, its source with other quotes, or, if it
/// continues a line, its backslash.
pub open spec fn stands_for(input: ParseInput, element: Element, token: int) -> bool {
    let start = input.tree.start_of(token);
    let end = input.tree.end_of(token);
    match element {
        Element::Text { start: first, end: last } => first == start && (last == end
            || input.tree.kind_of(token) == GDScriptNodeKind::LineContinuation && last == start
            + 1),
        Element::Unformatted { start: first, end: last } => first <= start && end <= last,
        Element::Produced { bytes } => requoted(input.text_of(token), input.quote_style) == Some(
            bytes,
        ),
        _ => false,
    }
}

/// True of a document that holds a token.
pub open spec fn doc_has_token(input: ParseInput, doc: Doc, token: int) -> bool
    decreases doc,
{
    match doc {
        Doc::Leaf(element) => stands_for(input, element, token),
        Doc::Indent { body, .. } => has_token(input, body, token),
        Doc::Group { body, .. } => has_token(input, body, token),
        Doc::Balanced { body } => has_token(input, body, token),
        Doc::IfMultiline { body } => has_token(input, body, token),
        Doc::IfSingleLine { body } => has_token(input, body, token),
    }
}

/// True of documents that hold a token.
pub open spec fn has_token(input: ParseInput, docs: Seq<Doc>, token: int) -> bool
    decreases docs,
{
    exists|i: int| 0 <= i < docs.len() && doc_has_token(input, #[trigger] docs[i], token)
}

/// True of the kinds that are laid out as containers.
pub open spec fn kind_is_container(kind: GDScriptNodeKind) -> bool {
    matches!(
        kind,
        GDScriptNodeKind::Array
            | GDScriptNodeKind::Dictionary
            | GDScriptNodeKind::EnumeratorList
            | GDScriptNodeKind::Parameters
            | GDScriptNodeKind::Arguments
            | GDScriptNodeKind::SubscriptArguments
    )
}

/// True of a child of a binary expression that is one of its parts: an operand,
/// the operator, or a comment.
pub open spec fn is_part_of_operation(input: ParseInput, node: int, index: int) -> bool {
    let child = input.tree.child_of(node, index);
    ||| input.tree.left_of(node) matches Some(left) && left == child && (input.tree.kind_of(child)
        == GDScriptNodeKind::BinaryOperator ==> input.tree.child_count_of(child) > 0)
    ||| input.tree.right_of(node) matches Some(right) && right == child
    ||| input.tree.kind_of(child) == GDScriptNodeKind::Comment
    ||| input.tree.left_of(node) matches Some(left) && input.tree.right_of(node) matches Some(right)
        && input.tree.end_of(left as int) <= input.tree.start_of(child) && input.tree.end_of(child)
        <= input.tree.start_of(right as int)
}

/// True of a child of a method call that is its name or its arguments, which
/// stand in parentheses.
pub open spec fn is_part_of_call(input: ParseInput, node: int, index: int) -> bool {
    let child = input.tree.child_of(node, index);
    index == 0 || index == 1 && input.tree.kind_of(child) == GDScriptNodeKind::Arguments
        && input.tree.child_count_of(child) >= 2
}

/// True of a child that stands behind a child that is a body.
pub open spec fn stands_behind_body(input: ParseInput, node: int, index: int) -> bool {
    exists|body: int|
        #![trigger input.tree.child_of(node, body)]
        0 <= body < index && input.tree.child_kind_of(node, body) == GDScriptNodeKind::Body
}

/// True of a child that the layout of its parent may leave out.
///
/// These are the semicolons of a body and the trailing comma of a container,
/// and then what a tree can hold that is out of place: something behind the body
/// of a function, something in a binary expression or a method call that is not
/// a part of it, arguments, a call or the body of a lambda with nothing in them,
/// and a backslash that has children.
pub open spec fn may_leave_out(input: ParseInput, node: int, index: int) -> bool {
    let kind = input.tree.kind_of(node);
    let child = input.tree.child_of(node, index);
    let child_kind = input.tree.kind_of(child);
    ||| kind_is_container(kind) && index == input.tree.child_count_of(node) - 2 && child_kind
        == GDScriptNodeKind::TokenComma
    ||| kind == GDScriptNodeKind::Arguments && input.tree.child_count_of(node) < 2
    ||| child_kind == GDScriptNodeKind::SemiColon && (kind == GDScriptNodeKind::Body || kind
        == GDScriptNodeKind::ClassBody || kind == GDScriptNodeKind::MatchBody)
    ||| kind == GDScriptNodeKind::Function && stands_behind_body(input, node, index)
    ||| kind == GDScriptNodeKind::BinaryOperator && !is_part_of_operation(input, node, index)
    ||| kind == GDScriptNodeKind::AttributeCall && !is_part_of_call(input, node, index)
    ||| kind == GDScriptNodeKind::Attribute && child_kind == GDScriptNodeKind::AttributeCall
        && input.tree.child_count_of(child) == 0
    ||| kind == GDScriptNodeKind::Lambda && child_kind == GDScriptNodeKind::Body
        && input.tree.child_count_of(child) == 0
    ||| child_kind == GDScriptNodeKind::LineContinuation && input.tree.child_count_of(child) > 0
}

/// True of a child that the layout comes to, where it comes to `from`. It does
/// not come to a child that a disabled region covers together with a sibling in
/// front of it.
pub open spec fn is_reached(input: ParseInput, node: int, from: int, index: int) -> bool
    decreases input.tree.children_left(node, from),
{
    if from >= index || from >= input.tree.child_count_of(node) {
        from == index
    } else {
        match overlap(input, node, from) {
            Overlap::Covered { following, .. } => is_reached(
                input,
                node,
                from + following + 1,
                index,
            ),
            _ => is_reached(input, node, from + 1, index),
        }
    }
}

/// True of a child with which a disabled region starts that a token lies in.
pub open spec fn starts_region_around(
    input: ParseInput,
    node: int,
    index: int,
    token: int,
) -> bool {
    overlap(input, node, index) matches Overlap::Covered { region, .. } && region.start
        == input.tree.start_of(input.tree.child_of(node, index)) && region.start
        <= input.tree.start_of(token) && input.tree.end_of(token) <= region.end
}

/// True of the nodes whose layout looks for disabled regions among their
/// children.
pub open spec fn reads_regions(input: ParseInput, node: int) -> bool {
    let kind = input.tree.kind_of(node);
    if kind == GDScriptNodeKind::Function {
        overlaps_a_region(input, node)
    } else {
        !kind_is_container(kind) && !matches!(
            kind,
            GDScriptNodeKind::Lambda
                | GDScriptNodeKind::SetGet
                | GDScriptNodeKind::ParenthesizedExpression
                | GDScriptNodeKind::BinaryOperator
                | GDScriptNodeKind::Condition
                | GDScriptNodeKind::Attribute
                | GDScriptNodeKind::AttributeCall
        )
    }
}

/// True of the nodes whose layout never looks for disabled regions among their
/// children.
pub open spec fn ignores_regions(input: ParseInput, node: int) -> bool {
    let kind = input.tree.kind_of(node);
    ||| kind_is_container(kind) && kind != GDScriptNodeKind::SubscriptArguments
    ||| kind == GDScriptNodeKind::Lambda
    ||| kind == GDScriptNodeKind::SetGet
    ||| kind == GDScriptNodeKind::Function && !overlaps_a_region(input, node)
}

/// True of a child that is laid out by itself, and not copied with a region.
pub open spec fn is_laid_out(input: ParseInput, node: int, index: int) -> bool {
    ignores_regions(input, node) || is_reached(input, node, 0, index) && !(overlap(
        input,
        node,
        index,
    ) is Covered)
}

/// True of a token in a node that no layout on the way to it may leave out. On
/// the way, it can turn up in a disabled region that is copied.
pub open spec fn is_kept(input: ParseInput, node: int, token: int) -> bool
    decreases input.tree.size() - node,
{
    if is_token_node(input, node) {
        node == token
    } else {
        exists|index: int|
            #![trigger input.tree.child_of(node, index)]
            0 <= index < input.tree.child_count_of(node) && (!may_leave_out(input, node, index)
                && is_laid_out(input, node, index) && node < input.tree.child_of(node, index)
                < input.tree.size() && is_kept(input, input.tree.child_of(node, index), token)
                || reads_regions(input, node) && is_reached(input, node, 0, index)
                && starts_region_around(input, node, index, token))
    }
}

/// Documents hold the tokens that a part of them holds.
pub broadcast proof fn lemma_in_concat(
    input: ParseInput,
    first: Seq<Doc>,
    second: Seq<Doc>,
    token: int,
)
    requires
        has_token(input, first, token) || has_token(input, second, token),
    ensures
        #[trigger] has_token(input, first + second, token),
{
    let all = first + second;
    if has_token(input, first, token) {
        let i = choose|i: int|
            0 <= i < first.len() && doc_has_token(input, #[trigger] first[i], token);
        assert(all[i] == first[i]);
    } else {
        let i = choose|i: int|
            0 <= i < second.len() && doc_has_token(input, #[trigger] second[i], token);
        assert(all[first.len() + i] == second[i]);
    }
}

/// An indent holds the tokens in it.
pub broadcast proof fn lemma_in_indented(
    input: ParseInput,
    level: int,
    body: Seq<Doc>,
    token: int,
)
    requires
        has_token(input, body, token),
    ensures
        #[trigger] has_token(input, indented(level, body), token),
{
    assert(doc_has_token(input, indented(level, body)[0], token));
}

/// A group holds the tokens in it.
pub broadcast proof fn lemma_in_grouped(input: ParseInput, body: Seq<Doc>, token: int)
    requires
        has_token(input, body, token),
    ensures
        #[trigger] has_token(input, grouped(body), token),
{
    assert(doc_has_token(input, grouped(body)[0], token));
}

/// A group holds the tokens in it.
pub broadcast proof fn lemma_in_grouped_until_first_line_break(
    input: ParseInput,
    body: Seq<Doc>,
    token: int,
)
    requires
        has_token(input, body, token),
    ensures
        #[trigger] has_token(input, grouped_until_first_line_break(body), token),
{
    assert(doc_has_token(input, grouped_until_first_line_break(body)[0], token));
}

/// A balanced group holds the tokens in it.
pub broadcast proof fn lemma_in_balanced(input: ParseInput, body: Seq<Doc>, token: int)
    requires
        has_token(input, body, token),
    ensures
        #[trigger] has_token(input, balanced(body), token),
{
    assert(doc_has_token(input, balanced(body)[0], token));
}

pub broadcast group group_tokens {
    lemma_in_concat,
    lemma_in_indented,
    lemma_in_grouped,
    lemma_in_grouped_until_first_line_break,
    lemma_in_balanced,
}

} // verus!
