//! Layouts write no byte of the source twice.
use vstd::prelude::*;

use crate::formatter::bodies::{
    body_docs, body_from, body_gap_docs, inline_comment_after, lambda_docs, lambda_from,
};
use crate::formatter::chains::{
    attribute_docs, chain_from, flat_arguments_docs, member_arguments_docs, member_docs,
    method_arguments_docs, method_name_docs,
};
use crate::formatter::containers::{
    after_comma_docs, after_elements_docs, container_contents, container_docs, element_docs,
    element_separator_docs, elements_from, trailing_comma,
};
use crate::formatter::nodes::{
    below_docs, child_docs, children_docs, children_from, continued_docs, function_docs, node_docs,
    parenthesized_docs, run_docs, separated_docs, setget_docs,
};
use crate::formatter::operators::{
    binary_operator_docs, chain_has_comment, chain_segments, comment_segments, conditional_docs,
    conditional_from, conditional_separator_docs, continues_left, level_segments, operator_docs,
    segments_from, Segment,
};
use crate::formatter::queries::{first_child_of_kind, is_operator_part, operator_of, operator_text};
use crate::formatter::regions::overlap;
use crate::formatter::separators::separator_docs;
use crate::formatter::source::{
    after_paragraph_docs, attached_end, attached_gap_docs, declaration_gap_docs, leading_block_docs,
    leading_start, lemma_attached_end, lemma_leading_block_start, newlines_before_pending,
    paragraph_gap_docs, pending_docs, plain_gap_docs, source_docs, source_from, Pending,
};
use crate::formatter::writes::{group_writes, once, writes};
use crate::node_kind::GDScriptNodeKind;
use crate::parser::ParseInput;

verus! {

broadcast use group_writes;

/// True of a node whose children lie inside of it, whose two operands are
/// different children and no comments, and that is not empty if it continues a
/// line.
pub open spec fn is_proper_node(input: ParseInput, node: int) -> bool {
    &&& forall|index: int|
        #![trigger input.tree.child_of(node, index)]
        0 <= index < input.tree.child_count_of(node) ==> input.tree.start_of(node)
            <= input.tree.start_of(input.tree.child_of(node, index)) && input.tree.end_of(
            input.tree.child_of(node, index),
        ) <= input.tree.end_of(node)
    &&& input.tree.left_of(node) matches Some(left) ==> input.tree.kind_of(left as int)
        != GDScriptNodeKind::Comment && input.tree.right_of(node) != Some(left)
    &&& input.tree.right_of(node) matches Some(right) ==> input.tree.kind_of(right as int)
        != GDScriptNodeKind::Comment
    &&& input.tree.kind_of(node) == GDScriptNodeKind::LineContinuation ==> input.tree.start_of(node)
        < input.tree.end_of(node)
}

/// True of a script without disabled regions, all nodes of which are proper.
pub open spec fn is_proper_script(input: ParseInput) -> bool {
    &&& input.tree_fits()
    &&& input.disabled_regions@.len() == 0
    &&& forall|node: int|
        #![trigger input.tree.nodes@[node]]
        input.tree.has(node) ==> is_proper_node(input, node)
}

/// Where the child at an index starts. Behind the last child, where the node
/// ends.
pub open spec fn start_from(input: ParseInput, node: int, index: int) -> int {
    if index < input.tree.child_count_of(node) {
        input.tree.start_of(input.tree.child_of(node, index))
    } else {
        input.tree.end_of(node)
    }
}

/// A child lies inside of its parent, and ends before the next ones start.
proof fn lemma_order(input: ParseInput, node: int, index: int, later: int)
    requires
        is_proper_script(input),
        input.tree.has(node),
        0 <= index < later,
        index < input.tree.child_count_of(node),
    ensures
        node < input.tree.child_of(node, index) < input.tree.size(),
        input.tree.start_of(node) <= start_from(input, node, index),
        start_from(input, node, index) == input.tree.start_of(input.tree.child_of(node, index)),
        start_from(input, node, index) <= input.tree.end_of(input.tree.child_of(node, index)),
        input.tree.end_of(input.tree.child_of(node, index)) <= start_from(input, node, later),
        input.tree.end_of(input.tree.child_of(node, index)) <= input.tree.end_of(node),
{
    assert(input.tree.nodes@[node] == input.tree.nodes@[node]);
    assert(is_proper_node(input, node));
    input.tree.lemma_child(node, index);
    input.lemma_node(input.tree.child_of(node, index));
    if later < input.tree.child_count_of(node) {
        input.lemma_siblings(node, index, later);
    }
}

/// Where there are no disabled regions, no child is in one.
proof fn lemma_no_overlap(input: ParseInput, node: int, index: int)
    requires
        input.disabled_regions@.len() == 0,
    ensures
        overlap(input, node, index) is Clear,
{
}

/// What stands between siblings copies nothing.
proof fn lemma_separator(
    input: ParseInput,
    parent: GDScriptNodeKind,
    previous: int,
    current: int,
    byte: int,
)
    ensures
        writes(separator_docs(input, parent, previous, current), byte) == 0,
{
    reveal(separator_docs);
}

/// What stands between the children of a body copies nothing.
proof fn lemma_body_gap(
    input: ParseInput,
    node: int,
    index: int,
    follows_inline_comment: bool,
    byte: int,
)
    ensures
        writes(body_gap_docs(input, node, index, follows_inline_comment), byte) == 0,
{
    reveal(body_gap_docs);
}

/// The layout of a node copies the bytes of the node, once at most.
proof fn lemma_node(input: ParseInput, node: int, byte: int)
    requires
        is_proper_script(input),
        input.tree.has(node),
    ensures
        once(node_docs(input, node), byte, input.tree.start_of(node), input.tree.end_of(node)),
    decreases input.tree.size() - node, 20int, 0int,
{
    if input.tree.child_count_of(node) > 0 {
        lemma_container(input, node, byte);
        lemma_children(input, node, 0, byte);
        lemma_body(input, node, false, byte);
        lemma_lambda(input, node, byte);
        lemma_function(input, node, byte);
        lemma_setget(input, node, byte);
        lemma_parenthesized(input, node, byte);
        lemma_binary_operator(input, node, byte);
        lemma_conditional(input, node, byte);
        lemma_attribute(input, node, byte);
        lemma_order(input, node, 0, 1);
        assert(children_docs(input, node) == children_from(input, node, 0));
    }
}

/// The layout of a node below another one.
proof fn lemma_below(input: ParseInput, ancestor: int, node: int, byte: int)
    requires
        is_proper_script(input),
        0 <= ancestor,
    ensures
        once(
            below_docs(input, ancestor, node),
            byte,
            input.tree.start_of(node),
            input.tree.end_of(node),
        ),
    decreases input.tree.size() - ancestor, 0int, 0int,
{
    if ancestor < node < input.tree.size() {
        lemma_node(input, node, byte);
    }
}

/// The layout of a child.
proof fn lemma_child(input: ParseInput, node: int, index: int, byte: int)
    requires
        is_proper_script(input),
        input.tree.has(node),
    ensures
        once(
            child_docs(input, node, index),
            byte,
            input.tree.start_of(input.tree.child_of(node, index)),
            input.tree.end_of(input.tree.child_of(node, index)),
        ),
    decreases input.tree.size() - node, 1int, 0int,
{
    lemma_below(input, node, input.tree.child_of(node, index), byte);
    assert(child_docs(input, node, index) == below_docs(
        input,
        node,
        input.tree.child_of(node, index),
    ));
}

proof fn lemma_separated(
    input: ParseInput,
    node: int,
    parent: GDScriptNodeKind,
    from: int,
    to: int,
    byte: int,
)
    requires
        is_proper_script(input),
        input.tree.has(node),
        0 <= from,
        to <= input.tree.child_count_of(node),
    ensures
        once(
            separated_docs(input, node, parent, from, to),
            byte,
            start_from(input, node, from),
            start_from(input, node, to),
        ),
    decreases input.tree.size() - node, 10int, to - from,
{
    if from < to {
        lemma_separator(
            input,
            parent,
            input.tree.child_of(node, from - 1),
            input.tree.child_of(node, from),
            byte,
        );
        lemma_order(input, node, from, to);
        lemma_order(input, node, from, from + 1);
        lemma_child(input, node, from, byte);
        lemma_separated(input, node, parent, from + 1, to, byte);
    }
}

proof fn lemma_run(
    input: ParseInput,
    node: int,
    parent: GDScriptNodeKind,
    from: int,
    to: int,
    byte: int,
)
    requires
        is_proper_script(input),
        input.tree.has(node),
        0 <= from,
        to <= input.tree.child_count_of(node),
    ensures
        once(
            run_docs(input, node, parent, from, to),
            byte,
            start_from(input, node, from),
            start_from(input, node, to),
        ),
    decreases input.tree.size() - node, 11int, 0int,
{
    if from < to {
        lemma_order(input, node, from, to);
        lemma_order(input, node, from, from + 1);
        lemma_child(input, node, from, byte);
        lemma_separated(input, node, parent, from + 1, to, byte);
    }
}

proof fn lemma_function(input: ParseInput, node: int, byte: int)
    requires
        is_proper_script(input),
        input.tree.has(node),
        input.tree.child_count_of(node) > 0,
    ensures
        once(function_docs(input, node), byte, input.tree.start_of(node), input.tree.end_of(node)),
    decreases input.tree.size() - node, 15int, 0int,
{
    let count = input.tree.child_count_of(node);
    let function = GDScriptNodeKind::Function;
    lemma_children(input, node, 0, byte);
    assert(children_docs(input, node) == children_from(input, node, 0));
    lemma_order(input, node, 0, count);
    lemma_run(input, node, function, 0, count, byte);
    match first_child_of_kind(*input.tree, node, 0, count, GDScriptNodeKind::Body) {
        None => {},
        Some(body) => {
            lemma_first_child(input, node, 0, count, GDScriptNodeKind::Body);
            lemma_run(input, node, function, 0, body, byte);
            lemma_separator(
                input,
                function,
                input.tree.child_of(node, body - 1),
                input.tree.child_of(node, body),
                byte,
            );
            lemma_order(input, node, body, count);
            lemma_child(input, node, body, byte);
        },
    }
}

/// The first child of a kind is a child.
proof fn lemma_first_child(
    input: ParseInput,
    node: int,
    from: int,
    to: int,
    kind: GDScriptNodeKind,
)
    ensures
        first_child_of_kind(*input.tree, node, from, to, kind) matches Some(index) ==> from <= index
            < to,
    decreases to - from,
{
    if from < to {
        lemma_first_child(input, node, from + 1, to, kind);
    }
}

proof fn lemma_setget(input: ParseInput, node: int, byte: int)
    requires
        is_proper_script(input),
        input.tree.has(node),
        input.tree.child_count_of(node) > 0,
    ensures
        once(setget_docs(input, node), byte, input.tree.start_of(node), input.tree.end_of(node)),
    decreases input.tree.size() - node, 15int, 0int,
{
    let count = input.tree.child_count_of(node);
    lemma_order(input, node, 0, 1);
    lemma_child(input, node, 0, byte);
    lemma_run(input, node, GDScriptNodeKind::SetGet, 1, count, byte);
}

proof fn lemma_parenthesized(input: ParseInput, node: int, byte: int)
    requires
        is_proper_script(input),
        input.tree.has(node),
        input.tree.child_count_of(node) > 0,
    ensures
        once(
            parenthesized_docs(input, node),
            byte,
            input.tree.start_of(node),
            input.tree.end_of(node),
        ),
    decreases input.tree.size() - node, 15int, 0int,
{
    let count = input.tree.child_count_of(node);
    lemma_children(input, node, 0, byte);
    assert(children_docs(input, node) == children_from(input, node, 0));
    lemma_order(input, node, 0, 1);
    if count >= 3 {
        lemma_order(input, node, 0, count - 1);
        lemma_order(input, node, 1, 2);
        lemma_order(input, node, 2, 3);
        lemma_order(input, node, count - 1, count);
        lemma_child(input, node, 0, byte);
        lemma_child(input, node, 1, byte);
        lemma_child(input, node, 2, byte);
        lemma_child(input, node, count - 1, byte);
        lemma_run(input, node, GDScriptNodeKind::ParenthesizedExpression, 1, count - 1, byte);
    }
}

proof fn lemma_continued(input: ParseInput, node: int, index: int, byte: int)
    requires
        is_proper_script(input),
        input.tree.has(node),
        0 <= index < input.tree.child_count_of(node),
    ensures
        once(
            continued_docs(input, node, index),
            byte,
            input.tree.start_of(input.tree.child_of(node, index)),
            input.tree.end_of(input.tree.child_of(node, index)),
        ),
    decreases input.tree.size() - node, 2int, 0int,
{
    let child = input.tree.child_of(node, index);
    lemma_child(input, node, index, byte);
    input.tree.lemma_child(node, index);
    assert(input.tree.nodes@[child] == input.tree.nodes@[child]);
    assert(is_proper_node(input, child));
}

proof fn lemma_children(input: ParseInput, node: int, index: int, byte: int)
    requires
        is_proper_script(input),
        input.tree.has(node),
        0 <= index,
    ensures
        once(
            children_from(input, node, index),
            byte,
            start_from(input, node, index),
            input.tree.end_of(node),
        ),
    decreases input.tree.size() - node, 10int, input.tree.children_left(node, index),
{
    if index < input.tree.child_count_of(node) {
        lemma_separator(
            input,
            input.tree.kind_of(node),
            input.tree.child_of(node, index - 1),
            input.tree.child_of(node, index),
            byte,
        );
        lemma_no_overlap(input, node, index);
        lemma_order(input, node, index, index + 1);
        lemma_continued(input, node, index, byte);
        lemma_children(input, node, index + 1, byte);
    }
}

proof fn lemma_body_from(
    input: ParseInput,
    node: int,
    index: int,
    follows_inline_comment: bool,
    adds_comma: bool,
    byte: int,
)
    requires
        is_proper_script(input),
        input.tree.has(node),
        0 <= index,
    ensures
        once(
            body_from(input, node, index, follows_inline_comment, adds_comma),
            byte,
            start_from(input, node, index),
            input.tree.end_of(node),
        ),
    decreases input.tree.size() - node, 10int, input.tree.children_left(node, index),
{
    if index < input.tree.child_count_of(node) {
        lemma_no_overlap(input, node, index);
        lemma_order(input, node, index, index + 1);
        lemma_child(input, node, index, byte);
        lemma_body_gap(input, node, index, follows_inline_comment, byte);
        lemma_body_from(input, node, index + 1, follows_inline_comment, adds_comma, byte);
        lemma_body_from(
            input,
            node,
            index + 1,
            inline_comment_after(input, node, index, follows_inline_comment),
            adds_comma,
            byte,
        );
    }
}

proof fn lemma_body(input: ParseInput, node: int, adds_comma: bool, byte: int)
    requires
        is_proper_script(input),
        input.tree.has(node),
    ensures
        once(
            body_docs(input, node, adds_comma),
            byte,
            input.tree.start_of(node),
            input.tree.end_of(node),
        ),
    decreases input.tree.size() - node, 15int, 0int,
{
    lemma_body_from(input, node, 0, false, adds_comma, byte);
    if input.tree.child_count_of(node) > 0 {
        lemma_order(input, node, 0, 1);
    }
}

proof fn lemma_lambda_from(input: ParseInput, node: int, index: int, byte: int)
    requires
        is_proper_script(input),
        input.tree.has(node),
        0 <= index,
    ensures
        once(
            lambda_from(input, node, index),
            byte,
            start_from(input, node, index),
            input.tree.end_of(node),
        ),
    decreases input.tree.size() - node, 10int, input.tree.children_left(node, index),
{
    if index < input.tree.child_count_of(node) {
        lemma_order(input, node, index, index + 1);
        lemma_body(input, input.tree.child_of(node, index), true, byte);
        lemma_child(input, node, index, byte);
        lemma_lambda_from(input, node, index + 1, byte);
    }
}

proof fn lemma_lambda(input: ParseInput, node: int, byte: int)
    requires
        is_proper_script(input),
        input.tree.has(node),
        input.tree.child_count_of(node) > 0,
    ensures
        once(lambda_docs(input, node), byte, input.tree.start_of(node), input.tree.end_of(node)),
    decreases input.tree.size() - node, 15int, 0int,
{
    lemma_lambda_from(input, node, 0, byte);
    lemma_order(input, node, 0, 1);
}

proof fn lemma_element(input: ParseInput, node: int, index: int, byte: int)
    requires
        is_proper_script(input),
        input.tree.has(node),
    ensures
        once(
            element_docs(input, node, index),
            byte,
            input.tree.start_of(input.tree.child_of(node, index)),
            input.tree.end_of(input.tree.child_of(node, index)),
        ),
    decreases input.tree.size() - node, 2int, 0int,
{
    lemma_separator(
        input,
        input.tree.kind_of(node),
        input.tree.child_of(node, index - 1),
        input.tree.child_of(node, index),
        byte,
    );
    lemma_child(input, node, index, byte);
    assert(writes(trailing_comma(), byte) == 0);
    assert(writes(element_separator_docs(input, node, index), byte) == 0);
    assert(writes(after_comma_docs(input, node, index), byte) == 0);
}

proof fn lemma_elements(input: ParseInput, node: int, index: int, byte: int)
    requires
        is_proper_script(input),
        input.tree.has(node),
        0 <= index,
    ensures
        once(
            elements_from(input, node, index),
            byte,
            start_from(input, node, index),
            start_from(input, node, input.tree.child_count_of(node) - 1),
        ),
    decreases input.tree.size() - node, 10int, input.tree.children_left(node, index),
{
    let count = input.tree.child_count_of(node);
    if index < count - 1 {
        lemma_order(input, node, index, index + 1);
        lemma_order(input, node, index, count - 1);
        lemma_element(input, node, index, byte);
        lemma_elements(input, node, index + 1, byte);
    }
}

proof fn lemma_container(input: ParseInput, node: int, byte: int)
    requires
        is_proper_script(input),
        input.tree.has(node),
        input.tree.child_count_of(node) > 0,
    ensures
        once(container_docs(input, node), byte, input.tree.start_of(node), input.tree.end_of(node)),
    decreases input.tree.size() - node, 15int, 0int,
{
    reveal(after_elements_docs);
    let count = input.tree.child_count_of(node);
    lemma_order(input, node, 0, 1);
    lemma_child(input, node, 0, byte);
    if count > 1 {
        lemma_order(input, node, 1, 2);
        lemma_child(input, node, 1, byte);
        lemma_order(input, node, count - 1, count);
        lemma_order(input, node, 0, count - 1);
        lemma_child(input, node, count - 1, byte);
        lemma_elements(input, node, 1, byte);
    }
    assert(writes(trailing_comma(), byte) == 0);
    assert(writes(after_elements_docs(input, node), byte) == 0);
    if count >= 3 {
        assert(once(
            container_contents(input, node),
            byte,
            input.tree.start_of(node),
            input.tree.end_of(node),
        ));
    }
}

proof fn lemma_conditional_from(input: ParseInput, node: int, index: int, byte: int)
    requires
        is_proper_script(input),
        input.tree.has(node),
        0 <= index,
    ensures
        once(
            conditional_from(input, node, index),
            byte,
            start_from(input, node, index),
            input.tree.end_of(node),
        ),
    decreases input.tree.size() - node, 10int, input.tree.children_left(node, index),
{
    if index < input.tree.child_count_of(node) {
        lemma_separator(
            input,
            GDScriptNodeKind::Condition,
            input.tree.child_of(node, index - 1),
            input.tree.child_of(node, index),
            byte,
        );
        assert(writes(conditional_separator_docs(input, node, index), byte) == 0);
        lemma_order(input, node, index, index + 1);
        lemma_continued(input, node, index, byte);
        lemma_conditional_from(input, node, index + 1, byte);
    }
}

proof fn lemma_conditional(input: ParseInput, node: int, byte: int)
    requires
        is_proper_script(input),
        input.tree.has(node),
        input.tree.child_count_of(node) > 0,
    ensures
        once(
            conditional_docs(input, node),
            byte,
            input.tree.start_of(node),
            input.tree.end_of(node),
        ),
    decreases input.tree.size() - node, 15int, 0int,
{
    lemma_children(input, node, 0, byte);
    assert(children_docs(input, node) == children_from(input, node, 0));
    lemma_conditional_from(input, node, 0, byte);
    lemma_order(input, node, 0, 1);
}

proof fn lemma_flat_arguments(input: ParseInput, arguments: int, byte: int)
    requires
        is_proper_script(input),
        input.tree.has(arguments),
    ensures
        once(
            flat_arguments_docs(input, arguments),
            byte,
            input.tree.start_of(arguments),
            input.tree.end_of(arguments),
        ),
    decreases input.tree.size() - arguments, 15int, 0int,
{
    let count = input.tree.child_count_of(arguments);
    let kind = input.tree.kind_of(arguments);
    if count >= 2 {
        let close = input.tree.child_of(arguments, count - 1);
        let end = if count >= 3 && input.tree.child_kind_of(arguments, count - 2)
            == GDScriptNodeKind::TokenComma {
            count - 2
        } else {
            count - 1
        };
        lemma_order(input, arguments, 0, 1);
        lemma_order(input, arguments, 0, count - 1);
        lemma_order(input, arguments, count - 1, count);
        if end < count - 1 {
            lemma_order(input, arguments, end, count - 1);
        }
        lemma_child(input, arguments, 0, byte);
        lemma_child(input, arguments, count - 1, byte);
        lemma_separated(input, arguments, kind, 1, end, byte);
        lemma_separator(input, kind, input.tree.child_of(arguments, end - 1), close, byte);
    }
}

proof fn lemma_method_arguments(input: ParseInput, call: int, is_last: bool, byte: int)
    requires
        is_proper_script(input),
        input.tree.has(call),
    ensures
        once(
            method_arguments_docs(input, call, is_last),
            byte,
            input.tree.start_of(input.tree.child_of(call, 1)),
            input.tree.end_of(input.tree.child_of(call, 1)),
        ),
    decreases input.tree.size() - call, 2int, 0int,
{
    let arguments = input.tree.child_of(call, 1);
    if call < arguments < input.tree.size() {
        lemma_node(input, arguments, byte);
        lemma_flat_arguments(input, arguments, byte);
    }
}

/// The part of a chain behind a dot, with the arguments of a method call.
proof fn lemma_member(input: ParseInput, node: int, index: int, byte: int)
    requires
        is_proper_script(input),
        input.tree.has(node),
        0 <= index,
    ensures
        writes(member_docs(input, node, index), byte) + writes(
            member_arguments_docs(input, node, index),
            byte,
        ) <= if index < input.tree.child_count_of(node) && input.tree.start_of(
            input.tree.child_of(node, index),
        ) <= byte < input.tree.end_of(input.tree.child_of(node, index)) {
            1nat
        } else {
            0nat
        },
    decreases input.tree.size() - node, 3int, 0int,
{
    if index < input.tree.child_count_of(node) {
        let child = input.tree.child_of(node, index);
        lemma_child(input, node, index, byte);
        input.tree.lemma_child(node, index);
        let is_last = index + 1 >= input.tree.child_count_of(node);
        let count = input.tree.child_count_of(child);
        if count > 0 {
            lemma_order(input, child, 0, 1);
            lemma_child(input, child, 0, byte);
        }
        if count > 1 {
            lemma_order(input, child, 1, 2);
            lemma_method_arguments(input, child, is_last, byte);
        }
        assert(writes(method_name_docs(input, child), byte) + writes(
            method_arguments_docs(input, child, is_last),
            byte,
        ) <= if input.tree.start_of(child) <= byte < input.tree.end_of(child) {
            1nat
        } else {
            0nat
        });
    }
}

proof fn lemma_chain(
    input: ParseInput,
    node: int,
    index: int,
    is_implicit: bool,
    is_explicit: bool,
    byte: int,
)
    requires
        is_proper_script(input),
        input.tree.has(node),
        0 <= index,
    ensures
        once(
            chain_from(input, node, index, is_implicit, is_explicit),
            byte,
            start_from(input, node, index),
            input.tree.end_of(node),
        ),
    decreases input.tree.size() - node, 10int, input.tree.children_left(node, index),
{
    let count = input.tree.child_count_of(node);
    if index < count {
        lemma_order(input, node, index, index + 1);
        lemma_child(input, node, index, byte);
        lemma_member(input, node, index + 1, byte);
        if index + 1 < count {
            lemma_order(input, node, index + 1, index + 2);
            lemma_child(input, node, index + 1, byte);
        }
        lemma_member(input, node, index + 2, byte);
        if index + 2 < count {
            lemma_order(input, node, index + 2, index + 3);
        }
        lemma_chain(input, node, index + 2, is_implicit, is_explicit, byte);
        lemma_chain(input, node, index + 3, is_implicit, is_explicit, byte);
    }
}

proof fn lemma_attribute(input: ParseInput, node: int, byte: int)
    requires
        is_proper_script(input),
        input.tree.has(node),
        input.tree.child_count_of(node) > 0,
    ensures
        once(attribute_docs(input, node), byte, input.tree.start_of(node), input.tree.end_of(node)),
    decreases input.tree.size() - node, 15int, 0int,
{
    lemma_children(input, node, 0, byte);
    assert(children_docs(input, node) == children_from(input, node, 0));
    lemma_order(input, node, 0, 1);
    lemma_child(input, node, 0, byte);
    lemma_chain(input, node, 1, true, true, byte);
    lemma_chain(input, node, 1, true, false, byte);
    lemma_chain(input, node, 1, false, true, byte);
    lemma_chain(input, node, 1, false, false, byte);
}

/// True where a byte lies in a child.
pub open spec fn is_in_child(input: ParseInput, node: int, index: int, byte: int) -> bool {
    0 <= index < input.tree.child_count_of(node) && input.tree.start_of(
        input.tree.child_of(node, index),
    ) <= byte < input.tree.end_of(input.tree.child_of(node, index))
}

/// A byte lies in one child at most.
proof fn lemma_disjoint(input: ParseInput, node: int, index: int, other: int, byte: int)
    requires
        is_proper_script(input),
        input.tree.has(node),
        is_in_child(input, node, index, byte),
        is_in_child(input, node, other, byte),
    ensures
        index == other,
{
    if index < other {
        lemma_order(input, node, index, other);
        lemma_order(input, node, other, other + 1);
    }
    if other < index {
        lemma_order(input, node, other, index);
        lemma_order(input, node, index, index + 1);
    }
}

/// True where a byte lies in a comment of a binary expression, from the child at
/// `from` on.
pub open spec fn is_in_comment(input: ParseInput, node: int, from: int, byte: int) -> bool {
    exists|index: int|
        from <= index && #[trigger] is_in_child(input, node, index, byte)
            && input.tree.child_kind_of(node, index) == GDScriptNodeKind::Comment
}

/// True where a byte lies in the operator of a binary expression, from the child
/// at `from` on.
pub open spec fn is_in_operator(input: ParseInput, node: int, from: int, byte: int) -> bool {
    exists|index: int|
        from <= index && #[trigger] is_in_child(input, node, index, byte) && is_operator_part(
            *input.tree,
            node,
            index,
        )
}

proof fn lemma_operator(
    input: ParseInput,
    ancestor: int,
    node: int,
    index: int,
    has_part: bool,
    byte: int,
)
    requires
        is_proper_script(input),
        0 <= ancestor <= node < input.tree.size(),
        0 <= index,
    ensures
        writes(operator_docs(input, ancestor, node, index, has_part), byte) <= if is_in_operator(
            input,
            node,
            index,
            byte,
        ) {
            1nat
        } else {
            0nat
        },
    decreases input.tree.size() - ancestor, 8int, input.tree.child_count_of(node) - index,
{
    if index < input.tree.child_count_of(node) {
        lemma_below(input, ancestor, input.tree.child_of(node, index), byte);
        lemma_operator(input, ancestor, node, index + 1, true, byte);
        lemma_operator(input, ancestor, node, index + 1, has_part, byte);
        if is_in_operator(input, node, index + 1, byte) {
            let later = choose|later: int|
                index + 1 <= later && #[trigger] is_in_child(input, node, later, byte)
                    && is_operator_part(*input.tree, node, later);
            assert(is_in_operator(input, node, index, byte));
            if is_in_child(input, node, index, byte) {
                lemma_disjoint(input, node, index, later, byte);
            }
        }
        if is_in_child(input, node, index, byte) && is_operator_part(*input.tree, node, index) {
            assert(is_in_operator(input, node, index, byte));
        }
    }
}

/// How often a part of a chain copies a byte.
pub open spec fn segment_writes(
    input: ParseInput,
    node: int,
    segment: Segment,
    byte: int,
) -> nat {
    writes(below_docs(input, node, segment.expression), byte) + match segment.operated_by {
        Some(operated_by) => writes(operator_docs(input, node, operated_by, 0, false), byte),
        None => 0,
    }
}

/// How often the parts of a chain from `index` on copy a byte.
pub open spec fn segments_write(
    input: ParseInput,
    node: int,
    segments: Seq<Segment>,
    index: int,
    byte: int,
) -> nat
    decreases segments.len() - index,
{
    if index >= segments.len() {
        0
    } else {
        segment_writes(input, node, segments[index], byte) + segments_write(
            input,
            node,
            segments,
            index + 1,
            byte,
        )
    }
}

/// The layout of a chain copies what its parts copy.
proof fn lemma_segments(
    input: ParseInput,
    node: int,
    segments: Seq<Segment>,
    index: int,
    has_comment: bool,
    byte: int,
)
    requires
        0 <= index,
    ensures
        writes(segments_from(input, node, segments, index, has_comment), byte) == segments_write(
            input,
            node,
            segments,
            index,
            byte,
        ),
    decreases segments.len() - index,
{
    if index < segments.len() {
        lemma_segments(input, node, segments, index + 1, has_comment, byte);
    }
}

/// Parts of a chain one after the other copy what each of them copies.
proof fn lemma_segments_concat(
    input: ParseInput,
    node: int,
    first: Seq<Segment>,
    second: Seq<Segment>,
    index: int,
    byte: int,
)
    requires
        0 <= index <= first.len(),
    ensures
        segments_write(input, node, first + second, index, byte) == segments_write(
            input,
            node,
            first,
            index,
            byte,
        ) + segments_write(input, node, second, 0, byte),
    decreases first.len() - index,
{
    if index < first.len() {
        assert((first + second)[index] == first[index]);
        lemma_segments_concat(input, node, first, second, index + 1, byte);
    } else {
        lemma_segments_shift(input, node, first, second, 0, byte);
    }
}

/// Parts of a chain copy the same behind others.
proof fn lemma_segments_shift(
    input: ParseInput,
    node: int,
    first: Seq<Segment>,
    second: Seq<Segment>,
    index: int,
    byte: int,
)
    requires
        0 <= index,
    ensures
        segments_write(input, node, first + second, first.len() + index, byte) == segments_write(
            input,
            node,
            second,
            index,
            byte,
        ),
    decreases second.len() - index,
{
    if index < second.len() {
        assert((first + second)[first.len() + index] == second[index]);
        lemma_segments_shift(input, node, first, second, index + 1, byte);
    }
}

/// The comments of a binary expression.
proof fn lemma_comments(input: ParseInput, root: int, node: int, from: int, byte: int)
    requires
        is_proper_script(input),
        0 <= root <= node < input.tree.size(),
        0 <= from,
    ensures
        segments_write(input, root, comment_segments(*input.tree, node, from), 0, byte)
            <= if is_in_comment(input, node, from, byte) {
            1nat
        } else {
            0nat
        },
    decreases input.tree.size() - root, 8int, input.tree.child_count_of(node) - from,
{
    if from < input.tree.child_count_of(node) {
        let child = input.tree.child_of(node, from);
        let rest = comment_segments(*input.tree, node, from + 1);
        lemma_comments(input, root, node, from + 1, byte);
        if is_in_comment(input, node, from + 1, byte) {
            let later = choose|later: int|
                from + 1 <= later && #[trigger] is_in_child(input, node, later, byte)
                    && input.tree.child_kind_of(node, later) == GDScriptNodeKind::Comment;
            assert(is_in_comment(input, node, from, byte));
            if is_in_child(input, node, from, byte) {
                lemma_disjoint(input, node, from, later, byte);
            }
        }
        if input.tree.kind_of(child) == GDScriptNodeKind::Comment {
            let first = seq![Segment { operated_by: None, expression: child }];
            lemma_below(input, root, child, byte);
            lemma_segments_concat(input, root, first, rest, 0, byte);
            lemma_single_segment(input, root, first[0], byte);
            if is_in_child(input, node, from, byte) {
                assert(is_in_comment(input, node, from, byte));
            }
        }
    }
}

/// A single part of a chain.
proof fn lemma_single_segment(input: ParseInput, node: int, segment: Segment, byte: int)
    ensures
        segments_write(input, node, seq![segment], 0, byte) == segment_writes(
            input,
            node,
            segment,
            byte,
        ),
{
    reveal_with_fuel(segments_write, 2);
}

/// What a binary expression adds to a chain: its comments, its operator and its
/// right operand. None of it lies in the left operand.
proof fn lemma_level(input: ParseInput, root: int, node: int, byte: int)
    requires
        is_proper_script(input),
        0 <= root <= node < input.tree.size(),
    ensures
        segments_write(input, root, level_segments(*input.tree, node), 0, byte)
            <= if input.tree.start_of(node) <= byte < input.tree.end_of(node) && !(
        input.tree.left_of(node) matches Some(left) && input.tree.start_of(left as int) <= byte
            < input.tree.end_of(left as int)) {
            1nat
        } else {
            0nat
        },
    decreases input.tree.size() - root, 9int, 0int,
{
    let tree = *input.tree;
    let comments = comment_segments(tree, node, 0);
    assert(tree.nodes@[node] == tree.nodes@[node]);
    assert(is_proper_node(input, node));
    tree.lemma_links(node);
    lemma_comments(input, root, node, 0, byte);
    lemma_operator(input, root, node, 0, false, byte);
    let left_index = match tree.left_of(node) {
        Some(left) => choose|index: int|
            #![trigger tree.child_of(node, index)]
            0 <= index < tree.child_count_of(node) && tree.child_of(node, index) == left,
        None => -1,
    };
    if is_in_comment(input, node, 0, byte) {
        let index = choose|index: int|
            0 <= index && #[trigger] is_in_child(input, node, index, byte) && tree.child_kind_of(
                node,
                index,
            ) == GDScriptNodeKind::Comment;
        lemma_order(input, node, index, index + 1);
        if is_in_child(input, node, left_index, byte) {
            lemma_disjoint(input, node, index, left_index, byte);
        }
    }
    if is_in_operator(input, node, 0, byte) {
        let index = choose|index: int|
            0 <= index && #[trigger] is_in_child(input, node, index, byte) && is_operator_part(
                tree,
                node,
                index,
            );
        lemma_order(input, node, index, index + 1);
        if is_in_comment(input, node, 0, byte) {
            let comment = choose|comment: int|
                0 <= comment && #[trigger] is_in_child(input, node, comment, byte)
                    && tree.child_kind_of(node, comment) == GDScriptNodeKind::Comment;
            lemma_disjoint(input, node, index, comment, byte);
        }
    }
    match tree.right_of(node) {
        Some(right) => {
            let right_index = choose|index: int|
                #![trigger tree.child_of(node, index)]
                0 <= index < tree.child_count_of(node) && tree.child_of(node, index) == right;
            let segment = Segment {
                operated_by: if operator_of(tree, node) is Some {
                    Some(node)
                } else {
                    None
                },
                expression: right as int,
            };
            lemma_below(input, root, right as int, byte);
            lemma_segments_concat(input, root, comments, seq![segment], 0, byte);
            lemma_single_segment(input, root, segment, byte);
            if is_in_child(input, node, right_index, byte) {
                lemma_order(input, node, right_index, right_index + 1);
                if is_in_child(input, node, left_index, byte) {
                    lemma_disjoint(input, node, right_index, left_index, byte);
                }
                if is_in_comment(input, node, 0, byte) {
                    let comment = choose|comment: int|
                        0 <= comment && #[trigger] is_in_child(input, node, comment, byte)
                            && tree.child_kind_of(node, comment) == GDScriptNodeKind::Comment;
                    lemma_disjoint(input, node, right_index, comment, byte);
                }
            }
        },
        None => {
            assert(level_segments(tree, node) =~= comments);
        },
    }
}

/// The parts of a chain.
proof fn lemma_chain_segments(
    input: ParseInput,
    root: int,
    node: int,
    operator: Seq<u8>,
    byte: int,
)
    requires
        is_proper_script(input),
        0 <= root <= node < input.tree.size(),
    ensures
        segments_write(input, root, chain_segments(input, node, operator), 0, byte)
            <= if input.tree.start_of(node) <= byte < input.tree.end_of(node) {
            1nat
        } else {
            0nat
        },
    decreases input.tree.size() - root, 10int, input.tree.size() - node,
{
    let tree = *input.tree;
    let level = level_segments(tree, node);
    lemma_level(input, root, node, byte);
    tree.lemma_links(node);
    match tree.left_of(node) {
        Some(left) => {
            let index = choose|index: int|
                #![trigger tree.child_of(node, index)]
                0 <= index < tree.child_count_of(node) && tree.child_of(node, index) == left;
            lemma_order(input, node, index, index + 1);
            if continues_left(input, node, operator) {
                let inner = chain_segments(input, left as int, operator);
                lemma_chain_segments(input, root, left as int, operator, byte);
                lemma_segments_concat(input, root, inner, level, 0, byte);
            } else {
                let first = Segment { operated_by: None, expression: left as int };
                lemma_below(input, root, left as int, byte);
                lemma_single_segment(input, root, first, byte);
                lemma_segments_concat(input, root, seq![first], level, 0, byte);
            }
        },
        None => {},
    }
}

proof fn lemma_binary_operator(input: ParseInput, node: int, byte: int)
    requires
        is_proper_script(input),
        input.tree.has(node),
        input.tree.child_count_of(node) > 0,
    ensures
        once(
            binary_operator_docs(input, node),
            byte,
            input.tree.start_of(node),
            input.tree.end_of(node),
        ),
    decreases input.tree.size() - node, 15int, 0int,
{
    let operator = operator_text(input, node);
    lemma_children(input, node, 0, byte);
    assert(children_docs(input, node) == children_from(input, node, 0));
    lemma_order(input, node, 0, 1);
    lemma_chain_segments(input, node, node, operator, byte);
    lemma_segments(
        input,
        node,
        chain_segments(input, node, operator),
        0,
        chain_has_comment(input, node, operator),
        byte,
    );
}

/// True of pending nodes that follow each other in the source and end before an
/// offset.
pub open spec fn are_in_order(input: ParseInput, pending: Seq<Pending>, limit: int) -> bool {
    &&& forall|i: int|
        0 <= i < pending.len() ==> input.tree.has((#[trigger] pending[i]).node)
            && input.tree.end_of(pending[i].node) <= limit
    &&& forall|i: int, j: int|
        #![trigger pending[i], pending[j]]
        0 <= i < j < pending.len() ==> input.tree.end_of(pending[i].node) <= input.tree.start_of(
            pending[j].node,
        )
}

/// Where a pending node starts. Behind the last one, a given offset.
pub open spec fn pending_start(
    input: ParseInput,
    pending: Seq<Pending>,
    index: int,
    limit: int,
) -> int {
    if index < pending.len() {
        input.tree.start_of(pending[index].node)
    } else {
        limit
    }
}

proof fn lemma_pending(
    input: ParseInput,
    pending: Seq<Pending>,
    from: int,
    to: int,
    separates_first: bool,
    limit: int,
    byte: int,
)
    requires
        is_proper_script(input),
        are_in_order(input, pending, limit),
        0 <= from <= to <= pending.len(),
    ensures
        once(
            pending_docs(input, pending, from, to, separates_first),
            byte,
            pending_start(input, pending, from, limit),
            pending_start(input, pending, to, limit),
        ),
        pending_start(input, pending, from, limit) <= pending_start(input, pending, to, limit),
    decreases to - from,
{
    if from < to {
        lemma_node(input, pending[from].node, byte);
        input.lemma_node(pending[from].node);
        lemma_pending(input, pending, from + 1, to, true, limit, byte);
        if from + 1 < pending.len() {
            assert(input.tree.end_of(pending[from].node) <= input.tree.start_of(
                pending[from + 1].node,
            ));
        }
    }
}

proof fn lemma_declaration_gap(
    input: ParseInput,
    pending: Seq<Pending>,
    previous: Option<int>,
    declaration: int,
    limit: int,
    byte: int,
)
    requires
        is_proper_script(input),
        are_in_order(input, pending, limit),
    ensures
        once(
            declaration_gap_docs(input, pending, previous, declaration),
            byte,
            pending_start(input, pending, 0, limit),
            limit,
        ),
        pending_start(input, pending, 0, limit) <= limit,
{
    reveal(declaration_gap_docs);
    reveal(plain_gap_docs);
    let count = pending.len() as int;
    let leading = leading_start(input, pending, previous, declaration);
    let attached = attached_end(pending, 0, leading, previous is Some);
    lemma_leading_block_start(input, pending, count);
    lemma_attached_end(pending, 0, leading, previous is Some);
    lemma_pending(input, pending, 0, attached, previous is Some, limit, byte);
    lemma_pending(input, pending, attached, leading, false, limit, byte);
    lemma_pending(input, pending, leading, count, false, limit, byte);
    let block = writes(pending_docs(input, pending, leading, count, false), byte);
    assert(writes(attached_gap_docs(input, pending, previous, declaration), byte) == 0);
    assert(writes(leading_block_docs(input, pending, previous, declaration, false), byte) == block);
    assert(writes(leading_block_docs(input, pending, previous, declaration, true), byte) == block);
    assert(writes(paragraph_gap_docs(input, pending, previous, declaration, attached), byte) == 0);
    assert(writes(after_paragraph_docs(input, pending, previous, declaration), byte) == 0);
}

proof fn lemma_source_from(
    input: ParseInput,
    index: int,
    previous: Option<int>,
    pending: Seq<Pending>,
    byte: int,
)
    requires
        is_proper_script(input),
        are_in_order(input, pending, start_from(input, 0, index)),
        0 <= index <= input.tree.child_count_of(0),
    ensures
        once(
            source_from(input, index, previous, pending),
            byte,
            pending_start(input, pending, 0, start_from(input, 0, index)),
            input.tree.end_of(0),
        ),
    decreases input.tree.children_left(0, index),
{
    reveal(source_from);
    let count = pending.len() as int;
    let limit = start_from(input, 0, index);
    if index >= input.tree.child_count_of(0) {
        lemma_pending(input, pending, 0, count, previous is Some, limit, byte);
    } else {
        let child = input.tree.child_of(0, index);
        let next = start_from(input, 0, index + 1);
        lemma_no_overlap(input, 0, index);
        lemma_order(input, 0, index, index + 1);
        lemma_node(input, child, byte);
        lemma_declaration_gap(input, pending, previous, child, limit, byte);
        let waiting = pending.push(
            Pending {
                node: child,
                newlines: newlines_before_pending(input, pending, previous, child),
            },
        );
        assert(are_in_order(input, waiting, next)) by {
            assert forall|i: int| 0 <= i < waiting.len() implies input.tree.has(
                (#[trigger] waiting[i]).node,
            ) && input.tree.end_of(waiting[i].node) <= next by {
                if i < count {
                    assert(waiting[i] == pending[i]);
                }
            }
            assert forall|i: int, j: int|
                #![trigger waiting[i], waiting[j]]
                0 <= i < j < waiting.len() implies input.tree.end_of(waiting[i].node)
                <= input.tree.start_of(waiting[j].node) by {
                assert(waiting[i] == pending[i]);
                if j < count {
                    assert(waiting[j] == pending[j]);
                }
            }
        }
        assert(pending_start(input, waiting, 0, next) == pending_start(input, pending, 0, limit))
            by {
            if count > 0 {
                assert(waiting[0] == pending[0]);
            }
        }
        assert(are_in_order(input, pending, next));
        lemma_source_from(input, index + 1, Some(child), pending, byte);
        lemma_source_from(input, index + 1, Some(child), Seq::empty(), byte);
        lemma_source_from(input, index + 1, previous, waiting, byte);
    }
}

/// No byte of a script is written twice: of all ranges of the source in its
/// layout, one at most contains it. This is about scripts that stay in order,
/// have no disabled regions, and whose nodes are proper ones.
pub proof fn no_byte_is_written_twice(input: ParseInput, byte: int)
    requires
        is_proper_script(input),
        !input.follows_plan(),
    ensures
        writes(source_docs(input), byte) <= 1,
{
    lemma_source_from(input, 0, None, Seq::empty(), byte);
}

} // verus!
