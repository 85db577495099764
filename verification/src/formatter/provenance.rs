//! Where the text in a layout comes from.
use vstd::prelude::*;

use crate::document::{flatten, source_text, unformatted, Doc};
use crate::document_laws::{
    flat_documents_are_well_nested, has_proper_leaves, is_proper, is_well_nested,
};
use crate::formatter::bodies::{
    body_docs, body_from, body_gap_docs, inline_comment_after, lambda_docs, lambda_from,
};
use crate::formatter::chains::{
    attribute_docs, chain_from, flat_arguments_docs, member_arguments_docs, member_docs,
    method_arguments_docs, method_name_docs,
};
use crate::formatter::containers::{
    after_comma_docs, after_elements_docs, container_contents, container_docs, element_docs,
    element_separator_docs, elements_from,
};
use crate::formatter::faithful::{
    doc_is_faithful, group_faithful, is_faithful, is_node_range, is_requoted_string,
    is_some_node_range, is_some_requoted_string, is_some_token, is_token, lemma_single,
};
use crate::formatter::nodes::{
    below_docs, child_docs, children_docs, children_from, continued_docs, function_docs, node_docs,
    parenthesized_docs, run_docs, separated_docs, setget_docs,
};
use crate::formatter::operators::{
    binary_operator_docs, chain_has_comment, chain_segments, conditional_docs, conditional_from,
    conditional_separator_docs, operator_docs, segments_from, Segment,
};
use crate::formatter::queries::{first_child_of_kind, operator_text};
use crate::formatter::regions::{overlap, region_contains_its_offset, Overlap};
use crate::formatter::reordering::{
    attached_after_docs, attached_before_docs, docstring_docs, item_declaration_docs, item_docs,
    item_gap_docs, items_from, reordered_docs, without_extends_docs,
};
use crate::formatter::separators::separator_docs;
use crate::formatter::source::{
    after_paragraph_docs, attached_end, attached_gap_docs, declaration_gap_docs, leading_block_docs,
    leading_start, lemma_attached_end, lemma_leading_block_start, newlines_before_pending,
    paragraph_gap_docs, pending_docs, plain_gap_docs, source_docs, source_from, Pending,
};
use crate::node_kind::GDScriptNodeKind;
use crate::parser::{is_string_kind, ParseInput};
use crate::renderer::Element;
use crate::reorder::ReorderItem;
use crate::string_literal::requoted;

verus! {

broadcast use group_faithful;

/// The text of a token is faithful.
proof fn lemma_token(input: ParseInput, node: int, start: int, end: int)
    requires
        is_token(input, node, start, end),
    ensures
        is_faithful(input, source_text(start, end)),
{
    assert(is_some_token(input, start, end));
    lemma_single(input, Doc::Leaf(Element::Text { start, end }));
}

/// A copy of the source of a node is faithful.
proof fn lemma_copied_node(input: ParseInput, node: int)
    requires
        input.tree.has(node),
    ensures
        is_faithful(input, unformatted(input.tree.start_of(node), input.tree.end_of(node))),
{
    let start = input.tree.start_of(node);
    let end = input.tree.end_of(node);
    assert(is_node_range(input, node, start, end));
    assert(is_some_node_range(input, start, end));
    lemma_single(input, Doc::Leaf(Element::Unformatted { start, end }));
}

/// A copy of a disabled region is faithful.
proof fn lemma_copied_region(input: ParseInput, node: int, index: int)
    ensures
        overlap(input, node, index) matches Overlap::Covered { region, .. } ==> is_faithful(
            input,
            unformatted(region.start as int, region.end as int),
        ),
{
    let child = input.tree.child_of(node, index);
    region_contains_its_offset(input.disabled_regions@, 0, input.tree.start_of(child));
    match overlap(input, node, index) {
        Overlap::Covered { region, .. } => {
            assert(input.disabled_regions@.contains(region));
            lemma_single(
                input,
                Doc::Leaf(
                    Element::Unformatted { start: region.start as int, end: region.end as int },
                ),
            );
        },
        _ => {},
    }
}

/// What stands between siblings is faithful.
proof fn lemma_separator(input: ParseInput, parent: GDScriptNodeKind, previous: int, current: int)
    ensures
        is_faithful(input, separator_docs(input, parent, previous, current)),
{
    reveal(separator_docs);
}

/// What stands between the children of a body is faithful.
proof fn lemma_body_gap(input: ParseInput, node: int, index: int, follows_inline_comment: bool)
    ensures
        is_faithful(input, body_gap_docs(input, node, index, follows_inline_comment)),
{
    reveal(body_gap_docs);
}

/// The layout of a node is faithful.
proof fn lemma_node(input: ParseInput, node: int)
    requires
        input.tree.is_linked(),
        input.tree.has(node),
    ensures
        is_faithful(input, node_docs(input, node)),
    decreases input.tree.size() - node, 20int, 0int,
{
    let kind = input.tree.kind_of(node);
    let start = input.tree.start_of(node);
    let end = input.tree.end_of(node);
    if input.tree.child_count_of(node) == 0 {
        if end > start {
            assert(is_token(input, node, start, end));
            lemma_token(input, node, start, end);
        }
    } else {
        lemma_copied_node(input, node);
        match requoted(input.text_of(node), input.quote_style) {
            Some(bytes) => {
                if is_string_kind(kind) {
                    assert(is_requoted_string(input, node, bytes));
                    assert(is_some_requoted_string(input, bytes));
                    lemma_single(input, Doc::Leaf(Element::Produced { bytes }));
                }
            },
            None => {},
        }
        lemma_container(input, node);
        lemma_children(input, node, 0);
        lemma_body(input, node, false);
        lemma_lambda(input, node);
        lemma_function(input, node);
        lemma_setget(input, node);
        lemma_parenthesized(input, node);
        lemma_binary_operator(input, node);
        lemma_conditional(input, node);
        lemma_attribute(input, node);
        assert(children_docs(input, node) == children_from(input, node, 0));
    }
}

/// The layout of a node below another one is faithful.
proof fn lemma_below(input: ParseInput, ancestor: int, node: int)
    requires
        input.tree.is_linked(),
        0 <= ancestor,
    ensures
        is_faithful(input, below_docs(input, ancestor, node)),
    decreases input.tree.size() - ancestor, 0int, 0int,
{
    if ancestor < node < input.tree.size() {
        lemma_node(input, node);
    }
}

/// The layout of a child is faithful.
proof fn lemma_child(input: ParseInput, node: int, index: int)
    requires
        input.tree.is_linked(),
        input.tree.has(node),
    ensures
        is_faithful(input, child_docs(input, node, index)),
    decreases input.tree.size() - node, 1int, 0int,
{
    lemma_below(input, node, input.tree.child_of(node, index));
    assert(child_docs(input, node, index) == below_docs(
        input,
        node,
        input.tree.child_of(node, index),
    ));
}

proof fn lemma_separated(
    input: ParseInput,
    node: int,
    parent: GDScriptNodeKind,
    from: int,
    to: int,
)
    requires
        input.tree.is_linked(),
        input.tree.has(node),
    ensures
        is_faithful(input, separated_docs(input, node, parent, from, to)),
    decreases input.tree.size() - node, 10int, to - from,
{
    if from < to {
        lemma_separator(
            input,
            parent,
            input.tree.child_of(node, from - 1),
            input.tree.child_of(node, from),
        );
        lemma_child(input, node, from);
        lemma_separated(input, node, parent, from + 1, to);
    }
}

proof fn lemma_run(input: ParseInput, node: int, parent: GDScriptNodeKind, from: int, to: int)
    requires
        input.tree.is_linked(),
        input.tree.has(node),
    ensures
        is_faithful(input, run_docs(input, node, parent, from, to)),
    decreases input.tree.size() - node, 11int, 0int,
{
    if from < to {
        lemma_child(input, node, from);
        lemma_separated(input, node, parent, from + 1, to);
    }
}

proof fn lemma_function(input: ParseInput, node: int)
    requires
        input.tree.is_linked(),
        input.tree.has(node),
    ensures
        is_faithful(input, function_docs(input, node)),
    decreases input.tree.size() - node, 15int, 0int,
{
    let count = input.tree.child_count_of(node);
    let function = GDScriptNodeKind::Function;
    lemma_children(input, node, 0);
    assert(children_docs(input, node) == children_from(input, node, 0));
    lemma_run(input, node, function, 0, count);
    match first_child_of_kind(*input.tree, node, 0, count, GDScriptNodeKind::Body) {
        None => {},
        Some(body) => {
            lemma_run(input, node, function, 0, body);
            lemma_separator(
                input,
                function,
                input.tree.child_of(node, body - 1),
                input.tree.child_of(node, body),
            );
            lemma_child(input, node, body);
        },
    }
}

proof fn lemma_setget(input: ParseInput, node: int)
    requires
        input.tree.is_linked(),
        input.tree.has(node),
    ensures
        is_faithful(input, setget_docs(input, node)),
    decreases input.tree.size() - node, 15int, 0int,
{
    lemma_child(input, node, 0);
    lemma_run(input, node, GDScriptNodeKind::SetGet, 1, input.tree.child_count_of(node));
}

proof fn lemma_parenthesized(input: ParseInput, node: int)
    requires
        input.tree.is_linked(),
        input.tree.has(node),
    ensures
        is_faithful(input, parenthesized_docs(input, node)),
    decreases input.tree.size() - node, 15int, 0int,
{
    let count = input.tree.child_count_of(node);
    lemma_children(input, node, 0);
    assert(children_docs(input, node) == children_from(input, node, 0));
    lemma_child(input, node, 0);
    lemma_child(input, node, 1);
    lemma_child(input, node, 2);
    lemma_child(input, node, count - 1);
    lemma_run(input, node, GDScriptNodeKind::ParenthesizedExpression, 1, count - 1);
}

proof fn lemma_continued(input: ParseInput, node: int, index: int)
    requires
        input.tree.is_linked(),
        input.tree.has(node),
        0 <= index < input.tree.child_count_of(node),
    ensures
        is_faithful(input, continued_docs(input, node, index)),
    decreases input.tree.size() - node, 2int, 0int,
{
    lemma_child(input, node, index);
    input.tree.lemma_child(node, index);
    let child = input.tree.child_of(node, index);
    let start = input.tree.start_of(child);
    if input.tree.kind_of(child) == GDScriptNodeKind::LineContinuation {
        lemma_token(input, child, start, start + 1);
    }
}

proof fn lemma_children(input: ParseInput, node: int, index: int)
    requires
        input.tree.is_linked(),
        input.tree.has(node),
        0 <= index,
    ensures
        is_faithful(input, children_from(input, node, index)),
    decreases input.tree.size() - node, 10int, input.tree.children_left(node, index),
{
    if index < input.tree.child_count_of(node) {
        lemma_separator(
            input,
            input.tree.kind_of(node),
            input.tree.child_of(node, index - 1),
            input.tree.child_of(node, index),
        );
        lemma_copied_region(input, node, index);
        lemma_child(input, node, index);
        lemma_continued(input, node, index);
        match overlap(input, node, index) {
            Overlap::Covered { region, following } => {
                lemma_children(input, node, index + following + 1);
            },
            _ => {
                lemma_children(input, node, index + 1);
            },
        }
    }
}

proof fn lemma_body_from(
    input: ParseInput,
    node: int,
    index: int,
    follows_inline_comment: bool,
    adds_comma: bool,
)
    requires
        input.tree.is_linked(),
        input.tree.has(node),
        0 <= index,
    ensures
        is_faithful(input, body_from(input, node, index, follows_inline_comment, adds_comma)),
    decreases input.tree.size() - node, 10int, input.tree.children_left(node, index),
{
    if index < input.tree.child_count_of(node) {
        lemma_copied_region(input, node, index);
        lemma_child(input, node, index);
        lemma_body_gap(input, node, index, follows_inline_comment);
        match overlap(input, node, index) {
            Overlap::Covered { region, following } => {
                lemma_body_from(input, node, index + following + 1, false, adds_comma);
            },
            Overlap::Partial => {
                lemma_body_from(input, node, index + 1, false, adds_comma);
            },
            Overlap::Clear => {
                lemma_body_from(input, node, index + 1, follows_inline_comment, adds_comma);
                lemma_body_from(
                    input,
                    node,
                    index + 1,
                    inline_comment_after(input, node, index, follows_inline_comment),
                    adds_comma,
                );
            },
        }
    }
}

proof fn lemma_body(input: ParseInput, node: int, adds_comma: bool)
    requires
        input.tree.is_linked(),
        input.tree.has(node),
    ensures
        is_faithful(input, body_docs(input, node, adds_comma)),
    decreases input.tree.size() - node, 15int, 0int,
{
    lemma_body_from(input, node, 0, false, adds_comma);
}

proof fn lemma_lambda_from(input: ParseInput, node: int, index: int)
    requires
        input.tree.is_linked(),
        input.tree.has(node),
        0 <= index,
    ensures
        is_faithful(input, lambda_from(input, node, index)),
    decreases input.tree.size() - node, 10int, input.tree.children_left(node, index),
{
    if index < input.tree.child_count_of(node) {
        input.tree.lemma_child(node, index);
        lemma_body(input, input.tree.child_of(node, index), true);
        lemma_child(input, node, index);
        lemma_lambda_from(input, node, index + 1);
    }
}

proof fn lemma_lambda(input: ParseInput, node: int)
    requires
        input.tree.is_linked(),
        input.tree.has(node),
    ensures
        is_faithful(input, lambda_docs(input, node)),
    decreases input.tree.size() - node, 15int, 0int,
{
    lemma_lambda_from(input, node, 0);
}

proof fn lemma_element(input: ParseInput, node: int, index: int)
    requires
        input.tree.is_linked(),
        input.tree.has(node),
    ensures
        is_faithful(input, element_docs(input, node, index)),
    decreases input.tree.size() - node, 2int, 0int,
{
    lemma_separator(
        input,
        input.tree.kind_of(node),
        input.tree.child_of(node, index - 1),
        input.tree.child_of(node, index),
    );
    lemma_child(input, node, index);
    assert(is_faithful(input, element_separator_docs(input, node, index)));
    assert(is_faithful(input, after_comma_docs(input, node, index)));
}

proof fn lemma_elements(input: ParseInput, node: int, index: int)
    requires
        input.tree.is_linked(),
        input.tree.has(node),
        0 <= index,
    ensures
        is_faithful(input, elements_from(input, node, index)),
    decreases input.tree.size() - node, 10int, input.tree.children_left(node, index),
{
    if index < input.tree.child_count_of(node) - 1 {
        lemma_element(input, node, index);
        lemma_elements(input, node, index + 1);
    }
}

proof fn lemma_container(input: ParseInput, node: int)
    requires
        input.tree.is_linked(),
        input.tree.has(node),
    ensures
        is_faithful(input, container_docs(input, node)),
    decreases input.tree.size() - node, 15int, 0int,
{
    reveal(after_elements_docs);
    lemma_child(input, node, 0);
    lemma_child(input, node, 1);
    lemma_child(input, node, input.tree.child_count_of(node) - 1);
    lemma_elements(input, node, 1);
    assert(is_faithful(input, after_elements_docs(input, node)));
    assert(is_faithful(input, container_contents(input, node)));
}

proof fn lemma_operator(
    input: ParseInput,
    ancestor: int,
    node: int,
    index: int,
    has_part: bool,
)
    requires
        input.tree.is_linked(),
        0 <= ancestor,
    ensures
        is_faithful(input, operator_docs(input, ancestor, node, index, has_part)),
    decreases input.tree.size() - ancestor, 8int, input.tree.child_count_of(node) - index,
{
    if index < input.tree.child_count_of(node) {
        lemma_below(input, ancestor, input.tree.child_of(node, index));
        lemma_operator(input, ancestor, node, index + 1, true);
        lemma_operator(input, ancestor, node, index + 1, has_part);
    }
}

proof fn lemma_segments(
    input: ParseInput,
    node: int,
    segments: Seq<Segment>,
    index: int,
    has_comment: bool,
)
    requires
        input.tree.is_linked(),
        input.tree.has(node),
        0 <= index,
    ensures
        is_faithful(input, segments_from(input, node, segments, index, has_comment)),
    decreases input.tree.size() - node, 10int, segments.len() - index,
{
    if index < segments.len() {
        let segment = segments[index];
        match segment.operated_by {
            Some(operated_by) => {
                lemma_operator(input, node, operated_by, 0, false);
            },
            None => {},
        }
        lemma_below(input, node, segment.expression);
        lemma_segments(input, node, segments, index + 1, has_comment);
    }
}

proof fn lemma_binary_operator(input: ParseInput, node: int)
    requires
        input.tree.is_linked(),
        input.tree.has(node),
    ensures
        is_faithful(input, binary_operator_docs(input, node)),
    decreases input.tree.size() - node, 15int, 0int,
{
    let operator = operator_text(input, node);
    lemma_children(input, node, 0);
    assert(children_docs(input, node) == children_from(input, node, 0));
    lemma_segments(
        input,
        node,
        chain_segments(input, node, operator),
        0,
        chain_has_comment(input, node, operator),
    );
}

proof fn lemma_conditional_from(input: ParseInput, node: int, index: int)
    requires
        input.tree.is_linked(),
        input.tree.has(node),
        0 <= index,
    ensures
        is_faithful(input, conditional_from(input, node, index)),
    decreases input.tree.size() - node, 10int, input.tree.children_left(node, index),
{
    if index < input.tree.child_count_of(node) {
        lemma_separator(
            input,
            GDScriptNodeKind::Condition,
            input.tree.child_of(node, index - 1),
            input.tree.child_of(node, index),
        );
        assert(is_faithful(input, conditional_separator_docs(input, node, index)));
        lemma_continued(input, node, index);
        lemma_conditional_from(input, node, index + 1);
    }
}

proof fn lemma_conditional(input: ParseInput, node: int)
    requires
        input.tree.is_linked(),
        input.tree.has(node),
    ensures
        is_faithful(input, conditional_docs(input, node)),
    decreases input.tree.size() - node, 15int, 0int,
{
    lemma_children(input, node, 0);
    assert(children_docs(input, node) == children_from(input, node, 0));
    lemma_conditional_from(input, node, 0);
}

proof fn lemma_flat_arguments(input: ParseInput, arguments: int)
    requires
        input.tree.is_linked(),
        input.tree.has(arguments),
    ensures
        is_faithful(input, flat_arguments_docs(input, arguments)),
    decreases input.tree.size() - arguments, 15int, 0int,
{
    let count = input.tree.child_count_of(arguments);
    let kind = input.tree.kind_of(arguments);
    let close = input.tree.child_of(arguments, count - 1);
    lemma_child(input, arguments, 0);
    lemma_child(input, arguments, count - 1);
    lemma_separated(input, arguments, kind, 1, count - 1);
    lemma_separated(input, arguments, kind, 1, count - 2);
    lemma_separator(input, kind, input.tree.child_of(arguments, count - 2), close);
    lemma_separator(input, kind, input.tree.child_of(arguments, count - 3), close);
}

proof fn lemma_method_arguments(input: ParseInput, call: int, is_last: bool)
    requires
        input.tree.is_linked(),
        input.tree.has(call),
    ensures
        is_faithful(input, method_arguments_docs(input, call, is_last)),
    decreases input.tree.size() - call, 2int, 0int,
{
    let arguments = input.tree.child_of(call, 1);
    if call < arguments < input.tree.size() {
        lemma_node(input, arguments);
        lemma_flat_arguments(input, arguments);
    }
}

proof fn lemma_member(input: ParseInput, node: int, index: int)
    requires
        input.tree.is_linked(),
        input.tree.has(node),
    ensures
        is_faithful(input, member_docs(input, node, index)),
        is_faithful(input, member_arguments_docs(input, node, index)),
    decreases input.tree.size() - node, 3int, 0int,
{
    let child = input.tree.child_of(node, index);
    lemma_child(input, node, index);
    if node < child < input.tree.size() {
        lemma_child(input, child, 0);
        assert(is_faithful(input, method_name_docs(input, child)));
        lemma_method_arguments(input, child, index + 1 >= input.tree.child_count_of(node));
    }
}

proof fn lemma_chain(
    input: ParseInput,
    node: int,
    index: int,
    is_implicit: bool,
    is_explicit: bool,
)
    requires
        input.tree.is_linked(),
        input.tree.has(node),
        0 <= index,
    ensures
        is_faithful(input, chain_from(input, node, index, is_implicit, is_explicit)),
    decreases input.tree.size() - node, 10int, input.tree.children_left(node, index),
{
    if index < input.tree.child_count_of(node) {
        lemma_child(input, node, index);
        lemma_child(input, node, index + 1);
        lemma_member(input, node, index + 1);
        lemma_member(input, node, index + 2);
        lemma_chain(input, node, index + 2, is_implicit, is_explicit);
        lemma_chain(input, node, index + 3, is_implicit, is_explicit);
    }
}

proof fn lemma_attribute(input: ParseInput, node: int)
    requires
        input.tree.is_linked(),
        input.tree.has(node),
    ensures
        is_faithful(input, attribute_docs(input, node)),
    decreases input.tree.size() - node, 15int, 0int,
{
    lemma_children(input, node, 0);
    assert(children_docs(input, node) == children_from(input, node, 0));
    lemma_child(input, node, 0);
    lemma_chain(input, node, 1, true, true);
    lemma_chain(input, node, 1, true, false);
    lemma_chain(input, node, 1, false, true);
    lemma_chain(input, node, 1, false, false);
}

/// True of pending nodes that are nodes of the tree.
pub open spec fn all_in_tree(input: ParseInput, pending: Seq<Pending>) -> bool {
    forall|i: int| 0 <= i < pending.len() ==> input.tree.has((#[trigger] pending[i]).node)
}

proof fn lemma_pending(
    input: ParseInput,
    pending: Seq<Pending>,
    from: int,
    to: int,
    separates_first: bool,
)
    requires
        input.tree.is_linked(),
        all_in_tree(input, pending),
        0 <= from,
        to <= pending.len(),
    ensures
        is_faithful(input, pending_docs(input, pending, from, to, separates_first)),
    decreases to - from,
{
    if from < to {
        assert(input.tree.has(pending[from].node));
        lemma_node(input, pending[from].node);
        lemma_pending(input, pending, from + 1, to, true);
    }
}

proof fn lemma_declaration_gap(
    input: ParseInput,
    pending: Seq<Pending>,
    previous: Option<int>,
    declaration: int,
)
    requires
        input.tree.is_linked(),
        all_in_tree(input, pending),
    ensures
        is_faithful(input, declaration_gap_docs(input, pending, previous, declaration)),
{
    reveal(declaration_gap_docs);
    reveal(plain_gap_docs);
    let count = pending.len() as int;
    let leading = leading_start(input, pending, previous, declaration);
    let attached = attached_end(pending, 0, leading, previous is Some);
    lemma_leading_block_start(input, pending, count);
    lemma_attached_end(pending, 0, leading, previous is Some);
    lemma_pending(input, pending, 0, attached, previous is Some);
    lemma_pending(input, pending, attached, leading, false);
    lemma_pending(input, pending, leading, count, false);
    assert(is_faithful(input, attached_gap_docs(input, pending, previous, declaration)));
    assert(is_faithful(input, leading_block_docs(input, pending, previous, declaration, false)));
    assert(is_faithful(input, leading_block_docs(input, pending, previous, declaration, true)));
    assert(is_faithful(
        input,
        paragraph_gap_docs(input, pending, previous, declaration, attached),
    ));
    assert(is_faithful(input, after_paragraph_docs(input, pending, previous, declaration)));
}

proof fn lemma_source_from(
    input: ParseInput,
    index: int,
    previous: Option<int>,
    pending: Seq<Pending>,
)
    requires
        input.tree.is_linked(),
        all_in_tree(input, pending),
        0 <= index,
    ensures
        is_faithful(input, source_from(input, index, previous, pending)),
    decreases input.tree.children_left(0, index),
{
    reveal(source_from);
    if index >= input.tree.child_count_of(0) {
        lemma_pending(input, pending, 0, pending.len() as int, previous is Some);
    } else {
        let child = input.tree.child_of(0, index);
        input.tree.lemma_child(0, index);
        lemma_node(input, child);
        lemma_declaration_gap(input, pending, previous, child);
        lemma_copied_region(input, 0, index);
        match overlap(input, 0, index) {
            Overlap::Covered { region, following } => {
                let last = Some(input.tree.child_of(0, index + following));
                lemma_source_from(input, index + following + 1, last, Seq::empty());
                lemma_source_from(input, index + following + 1, last, pending);
            },
            _ => {
                let waiting = pending.push(
                    Pending {
                        node: child,
                        newlines: newlines_before_pending(input, pending, previous, child),
                    },
                );
                assert forall|i: int| 0 <= i < waiting.len() implies input.tree.has(
                    (#[trigger] waiting[i]).node,
                ) by {
                    if i < pending.len() {
                        assert(waiting[i] == pending[i]);
                    }
                }
                lemma_source_from(input, index + 1, Some(child), pending);
                lemma_source_from(input, index + 1, Some(child), Seq::empty());
                lemma_source_from(input, index + 1, previous, waiting);
            },
        }
    }
}

proof fn lemma_top_level(input: ParseInput, index: int)
    requires
        input.tree.is_linked(),
    ensures
        input.top_level(index) matches Some(child) ==> input.tree.has(child) && is_faithful(
            input,
            node_docs(input, child),
        ),
{
    if 0 <= index < input.tree.child_count_of(0) {
        input.tree.lemma_child(0, index);
        lemma_node(input, input.tree.child_of(0, index));
    }
}

proof fn lemma_attached(input: ParseInput, item: ReorderItem, index: int)
    requires
        input.tree.is_linked(),
        0 <= index,
    ensures
        is_faithful(input, attached_before_docs(input, item, index)),
        is_faithful(input, docstring_docs(input, item, index)),
    decreases item.child_indices_attached_before_declaration@.len() - index,
{
    if index < item.child_indices_attached_before_declaration@.len() {
        lemma_top_level(
            input,
            item.child_indices_attached_before_declaration@[index] as int,
        );
        lemma_attached(input, item, index + 1);
    }
}

proof fn lemma_attached_after(input: ParseInput, item: ReorderItem, index: int)
    requires
        input.tree.is_linked(),
        0 <= index,
    ensures
        is_faithful(input, attached_after_docs(input, item, index)),
    decreases item.child_indices_attached_after_declaration@.len() - index,
{
    if index < item.child_indices_attached_after_declaration@.len() {
        lemma_top_level(
            input,
            item.child_indices_attached_after_declaration@[index] as int,
        );
        lemma_attached_after(input, item, index + 1);
    }
}

proof fn lemma_without_extends(
    input: ParseInput,
    node: int,
    index: int,
    previous: Option<int>,
)
    requires
        input.tree.is_linked(),
        input.tree.has(node),
        0 <= index,
    ensures
        is_faithful(input, without_extends_docs(input, node, index, previous)),
    decreases input.tree.child_count_of(node) - index,
{
    if index < input.tree.child_count_of(node) {
        let child = input.tree.child_of(node, index);
        input.tree.lemma_child(node, index);
        lemma_node(input, child);
        match previous {
            Some(before) => lemma_separator(input, input.tree.kind_of(node), before, child),
            None => {},
        }
        lemma_without_extends(input, node, index + 1, previous);
        lemma_without_extends(input, node, index + 1, Some(child));
    }
}

proof fn lemma_item(input: ParseInput, item: ReorderItem)
    requires
        input.tree.is_linked(),
    ensures
        is_faithful(input, item_docs(input, item)),
{
    reveal(item_docs);
    lemma_attached(input, item, 0);
    lemma_attached_after(input, item, 0);
    lemma_top_level(input, item.child_index as int);
    match input.top_level(item.child_index as int) {
        Some(child) => {
            lemma_without_extends(input, child, 0, None);
            match item.sub_child {
                Some(part) => {
                    if part < input.tree.child_count_of(child) {
                        input.tree.lemma_child(child, part as int);
                        lemma_node(input, input.tree.child_of(child, part as int));
                    }
                },
                None => {},
            }
        },
        None => {},
    }
    assert(is_faithful(input, item_declaration_docs(input, item)));
}

proof fn lemma_items(input: ParseInput, index: int)
    requires
        input.tree.is_linked(),
        0 <= index,
    ensures
        is_faithful(input, items_from(input, index)),
    decreases input.reorder_plan.items@.len() - index,
{
    let items = input.reorder_plan.items@;
    if index < items.len() {
        assert(is_faithful(input, item_gap_docs(input, items[index - 1], items[index])));
        lemma_item(input, items[index]);
        lemma_items(input, index + 1);
    }
}

/// Nothing in the layout of a script is made up: every text in it is a token,
/// a node or a disabled region of the source as it stands there, a string of the
/// script with other quotes, or a comma, a parenthesis or a backslash.
pub proof fn layout_comes_from_source(input: ParseInput)
    requires
        input.wf(),
    ensures
        is_faithful(input, source_docs(input)),
{
    lemma_source_from(input, 0, None, Seq::empty());
    lemma_items(input, 0);
    lemma_children(input, 0, 0);
    assert(children_docs(input, 0) == children_from(input, 0, 0));
    assert(is_faithful(input, reordered_docs(input)));
}

/// Faithful documents have elements as leaves that span no others.
proof fn lemma_faithful_is_proper(input: ParseInput, docs: Seq<Doc>)
    requires
        is_faithful(input, docs),
    ensures
        has_proper_leaves(docs),
    decreases docs, 0int,
{
    assert forall|i: int| 0 <= i < docs.len() implies is_proper(#[trigger] docs[i]) by {
        assert(doc_is_faithful(input, docs[i]));
        lemma_faithful_doc_is_proper(input, docs[i]);
    }
}

/// A faithful document has elements as leaves that span no others.
proof fn lemma_faithful_doc_is_proper(input: ParseInput, doc: Doc)
    requires
        doc_is_faithful(input, doc),
    ensures
        is_proper(doc),
    decreases doc, 0int,
{
    match doc {
        Doc::Leaf(_) => {},
        Doc::Indent { body, .. } => lemma_faithful_is_proper(input, body),
        Doc::Group { body, .. } => lemma_faithful_is_proper(input, body),
        Doc::Balanced { body } => lemma_faithful_is_proper(input, body),
        Doc::IfMultiline { body } => lemma_faithful_is_proper(input, body),
        Doc::IfSingleLine { body } => lemma_faithful_is_proper(input, body),
    }
}

/// The render elements of a script are well-nested: the span of every indent,
/// group and branch starts right behind it, ends with the elements at the
/// latest, and contains the spans of all elements in it.
pub proof fn layout_is_well_nested(input: ParseInput)
    requires
        input.wf(),
    ensures
        is_well_nested(flatten(source_docs(input), 0), 0),
{
    layout_comes_from_source(input);
    lemma_faithful_is_proper(input, source_docs(input));
    flat_documents_are_well_nested(source_docs(input), 0);
}

} // verus!
