//! Expressions break where the parser allows it.
use vstd::prelude::*;

use crate::document::{fixed, if_multiline, indented, soft_line, space};
use crate::formatter::breaks::{
    delta, group_breaks, holds_together, is_sound, lemma_backslash, lemma_fixed_deltas, text_delta,
};
use crate::formatter::chains::{
    attribute_docs, chain_from, flat_arguments_docs, member_arguments_docs, member_docs,
    method_arguments_docs,
};
use crate::formatter::containers::{
    after_comma_docs, after_elements_docs, container_contents, container_docs, element_docs,
    element_separator_docs, elements_from, trailing_comma,
};
use crate::formatter::nodes::{
    below_docs, child_docs, children_docs, children_from, continued_docs, node_docs,
    parenthesized_docs, run_docs, separated_docs, separator_before,
};
use crate::formatter::operators::{
    binary_operator_docs, chain_has_comment, chain_segments, comment_segments, conditional_docs,
    conditional_from, conditional_separator_docs, continues_left, level_segments, operator_docs,
    segments_from, Segment,
};
use crate::formatter::queries::{
    allows_implicit_continuation, first_child_of_kind, first_child_of_kind_is_the_first,
    is_in_single_indent_container, is_inside_parentheses, operator_text,
};
use crate::formatter::regions::overlap;
use crate::formatter::separators::separator_docs;
use crate::node_kind::GDScriptNodeKind;
use crate::parser::ParseInput;
use crate::syntax_tree::SyntaxTree;

verus! {

broadcast use group_breaks;

/// True of the kinds that stand between delimiters of their own.
pub open spec fn kind_is_delimited(kind: GDScriptNodeKind) -> bool {
    matches!(
        kind,
        GDScriptNodeKind::Array
            | GDScriptNodeKind::Dictionary
            | GDScriptNodeKind::EnumeratorList
            | GDScriptNodeKind::Parameters
            | GDScriptNodeKind::Arguments
            | GDScriptNodeKind::SubscriptArguments
            | GDScriptNodeKind::ParenthesizedExpression
    )
}

/// True of the kinds that no expression on a single line holds: comments,
/// backslashes, blocks of statements, and what they belong to.
pub open spec fn kind_spans_lines(kind: GDScriptNodeKind) -> bool {
    matches!(
        kind,
        GDScriptNodeKind::Comment
            | GDScriptNodeKind::LineContinuation
            | GDScriptNodeKind::Lambda
            | GDScriptNodeKind::Function
            | GDScriptNodeKind::Body
            | GDScriptNodeKind::ClassBody
            | GDScriptNodeKind::MatchBody
            | GDScriptNodeKind::SetBody
            | GDScriptNodeKind::GetBody
            | GDScriptNodeKind::SetGet
            | GDScriptNodeKind::ElifStatement
            | GDScriptNodeKind::ElseStatement
            | GDScriptNodeKind::Annotations
    )
}

/// True of the kinds whose source is not broken up.
pub open spec fn kind_is_copied(kind: GDScriptNodeKind) -> bool {
    matches!(
        kind,
        GDScriptNodeKind::String
            | GDScriptNodeKind::StringName
            | GDScriptNodeKind::NodePath
            | GDScriptNodeKind::GetNode
            | GDScriptNodeKind::RegionStart
            | GDScriptNodeKind::RegionEnd
            | GDScriptNodeKind::Error
    )
}

/// True of a token that is a bracket, one that opens where `change` is 1 and one
/// that closes where it is -1.
pub open spec fn is_bracket(input: ParseInput, node: int, change: int) -> bool {
    &&& input.tree.has(node)
    &&& input.tree.child_count_of(node) == 0
    &&& input.tree.end_of(node) == input.tree.start_of(node) + 1
    &&& text_delta(input, input.tree.start_of(node), input.tree.end_of(node)) == change
    &&& !kind_spans_lines(input.tree.kind_of(node))
}

/// True of an expression, or a statement around one, that is written on one line
/// unless it breaks between delimiters. Brackets stand at both ends of the
/// delimited expressions in it, and nowhere else.
pub open spec fn is_expression(input: ParseInput, node: int) -> bool
    decreases input.tree.size() - node,
{
    let kind = input.tree.kind_of(node);
    let count = input.tree.child_count_of(node);
    &&& !kind_spans_lines(kind)
    &&& if count == 0 {
        text_delta(input, input.tree.start_of(node), input.tree.end_of(node)) == 0
    } else if kind_is_copied(kind) {
        true
    } else {
        &&& kind_is_delimited(kind) ==> count >= 2
        &&& kind == GDScriptNodeKind::AttributeCall && count > 1 ==> !kind_is_copied(
            input.tree.child_kind_of(node, 1),
        )
        &&& forall|index: int|
            #![trigger input.tree.child_of(node, index)]
            0 <= index < count ==> node < input.tree.child_of(node, index) < input.tree.size()
                && if kind_is_delimited(kind) && index == 0 {
                is_bracket(input, input.tree.child_of(node, index), 1)
            } else if kind_is_delimited(kind) && index == count - 1 {
                is_bracket(input, input.tree.child_of(node, index), -1)
            } else {
                is_expression(input, input.tree.child_of(node, index))
            }
    }
}

/// True of a node somewhere between delimiters.
pub open spec fn is_between_delimiters(tree: SyntaxTree, node: int) -> bool
    decreases node,
{
    tree.parent_of(node) matches Some(parent) && parent < node && (kind_is_delimited(
        tree.kind_of(parent as int),
    ) || is_between_delimiters(tree, parent as int))
}

/// True of a depth at which a node can stand: at least one delimiter is open
/// where it stands between delimiters.
spec fn is_depth(input: ParseInput, node: int, depth: int) -> bool {
    0 <= depth && (is_between_delimiters(*input.tree, node) ==> depth > 0)
}

/// True of a script and a node in it that can be laid out as an expression.
spec fn is_ready(input: ParseInput, node: int) -> bool {
    &&& input.tree_fits()
    &&& input.disabled_regions@.len() == 0
    &&& input.tree.has(node)
    &&& is_expression(input, node)
}

/// True of a node whose children are laid out.
spec fn has_parts(input: ParseInput, node: int) -> bool {
    input.tree.child_count_of(node) > 0 && !kind_is_copied(input.tree.kind_of(node))
}

/// By how much a child changes the number of open delimiters.
spec fn child_delta(input: ParseInput, node: int, index: int) -> int {
    if !kind_is_delimited(input.tree.kind_of(node)) {
        0
    } else if index == 0 {
        1
    } else if index == input.tree.child_count_of(node) - 1 {
        -1
    } else {
        0
    }
}

/// The number of open delimiters in front of a child.
spec fn depth_before(input: ParseInput, node: int, index: int, depth: int) -> int {
    if kind_is_delimited(input.tree.kind_of(node)) && 0 < index < input.tree.child_count_of(
        node,
    ) {
        depth + 1
    } else {
        depth
    }
}

/// What the layout asks of the nodes above is that one of them is delimited.
pub proof fn lemma_searches(tree: SyntaxTree, node: int)
    ensures
        is_in_single_indent_container(tree, node) ==> is_between_delimiters(tree, node),
        allows_implicit_continuation(tree, node) ==> is_between_delimiters(tree, node),
        is_inside_parentheses(tree, node) ==> is_between_delimiters(tree, node),
    decreases node,
{
    match tree.parent_of(node) {
        Some(parent) => {
            if parent < node {
                lemma_searches(tree, parent as int);
            }
        },
        None => {},
    }
}

/// A child stands between delimiters if its parent is delimited or stands
/// between delimiters.
proof fn lemma_child_depth(input: ParseInput, node: int, index: int)
    requires
        input.tree_fits(),
        input.tree.has(node),
        0 <= index < input.tree.child_count_of(node),
    ensures
        is_between_delimiters(*input.tree, input.tree.child_of(node, index)) == (kind_is_delimited(
            input.tree.kind_of(node),
        ) || is_between_delimiters(*input.tree, node)),
        node < input.tree.child_of(node, index) < input.tree.size(),
{
    input.tree.lemma_child(node, index);
}

/// What stands between two parts of an expression.
proof fn lemma_separator(
    input: ParseInput,
    parent: GDScriptNodeKind,
    previous: int,
    current: int,
    depth: int,
)
    requires
        depth > 0 || !kind_spans_lines(input.tree.kind_of(previous)) && !kind_spans_lines(
            input.tree.kind_of(current),
        ),
    ensures
        is_sound(input, separator_docs(input, parent, previous, current), depth),
{
    reveal(separator_docs);
}

/// The kinds of the children of an expression.
proof fn lemma_part(input: ParseInput, node: int, index: int)
    requires
        is_ready(input, node),
        has_parts(input, node),
        0 <= index < input.tree.child_count_of(node),
    ensures
        !kind_spans_lines(input.tree.child_kind_of(node, index)),
        child_delta(input, node, index) == 0 ==> is_ready(input, input.tree.child_of(node, index)),
{
    reveal_with_fuel(is_expression, 2);
    assert(input.tree.child_of(node, index) == input.tree.child_of(node, index));
}

/// The layout of an expression.
proof fn lemma_node(input: ParseInput, node: int, depth: int)
    requires
        is_ready(input, node),
        is_depth(input, node, depth),
    ensures
        is_sound(input, node_docs(input, node), depth),
    decreases input.tree.size() - node, 20int, 0int,
{
    let kind = input.tree.kind_of(node);
    let count = input.tree.child_count_of(node);
    if has_parts(input, node) {
        lemma_children(input, node, 0, depth);
        assert(children_docs(input, node) == children_from(input, node, 0));
        match kind {
            GDScriptNodeKind::Array
            | GDScriptNodeKind::Dictionary
            | GDScriptNodeKind::EnumeratorList
            | GDScriptNodeKind::Parameters
            | GDScriptNodeKind::Arguments
            | GDScriptNodeKind::SubscriptArguments => {
                lemma_container(input, node, depth);
            },
            GDScriptNodeKind::ParenthesizedExpression => {
                lemma_parenthesized(input, node, depth);
            },
            GDScriptNodeKind::BinaryOperator => {
                lemma_binary_operator(input, node, depth);
            },
            GDScriptNodeKind::Condition => {
                lemma_conditional(input, node, depth);
            },
            GDScriptNodeKind::Attribute => {
                lemma_attribute(input, node, depth);
            },
            _ => {},
        }
    }
}

/// The layout of a child: a delimiter, or an expression.
proof fn lemma_child(input: ParseInput, node: int, index: int, depth: int)
    requires
        is_ready(input, node),
        has_parts(input, node),
        0 <= index < input.tree.child_count_of(node),
        is_depth(input, node, depth),
        kind_is_delimited(input.tree.kind_of(node)) && index > 0 ==> depth > 0,
    ensures
        delta(input, child_docs(input, node, index)) == child_delta(input, node, index),
        holds_together(input, child_docs(input, node, index), depth),
    decreases input.tree.size() - node, 1int, 0int,
{
    let child = input.tree.child_of(node, index);
    lemma_child_depth(input, node, index);
    assert(child_docs(input, node, index) == below_docs(input, node, child));
    assert(below_docs(input, node, child) == node_docs(input, child));
    if child_delta(input, node, index) == 0 {
        lemma_part(input, node, index);
        lemma_node(input, child, depth);
    } else {
        assert(node_docs(input, child) == crate::document::source_text(
            input.tree.start_of(child),
            input.tree.end_of(child),
        ));
    }
}

/// The children from an index on.
proof fn lemma_children(input: ParseInput, node: int, index: int, depth: int)
    requires
        is_ready(input, node),
        has_parts(input, node),
        0 <= index,
        is_depth(input, node, depth),
    ensures
        delta(input, children_from(input, node, index)) == depth - depth_before(
            input,
            node,
            index,
            depth,
        ),
        holds_together(
            input,
            children_from(input, node, index),
            depth_before(input, node, index, depth),
        ),
    decreases input.tree.size() - node, 10int, input.tree.children_left(node, index),
{
    if index < input.tree.child_count_of(node) {
        let at = depth_before(input, node, index, depth);
        assert(overlap(input, node, index) is Clear);
        lemma_part(input, node, index);
        if index > 0 {
            lemma_part(input, node, index - 1);
            lemma_separator(
                input,
                input.tree.kind_of(node),
                input.tree.child_of(node, index - 1),
                input.tree.child_of(node, index),
                at,
            );
        }
        assert(is_sound(input, separator_before(input, node, index), at));
        assert(continued_docs(input, node, index) == child_docs(input, node, index));
        lemma_child(input, node, index, at);
        lemma_children(input, node, index + 1, depth);
    }
}

/// Children between the delimiters of a node, or of a node without any.
proof fn lemma_separated(
    input: ParseInput,
    node: int,
    parent: GDScriptNodeKind,
    from: int,
    to: int,
    depth: int,
)
    requires
        is_ready(input, node),
        has_parts(input, node),
        0 < from,
        to <= input.tree.child_count_of(node),
        is_depth(input, node, depth),
        kind_is_delimited(input.tree.kind_of(node)) ==> depth > 0 && to
            < input.tree.child_count_of(node),
    ensures
        is_sound(input, separated_docs(input, node, parent, from, to), depth),
    decreases input.tree.size() - node, 10int, to - from,
{
    if from < to {
        lemma_part(input, node, from);
        lemma_part(input, node, from - 1);
        lemma_separator(
            input,
            parent,
            input.tree.child_of(node, from - 1),
            input.tree.child_of(node, from),
            depth,
        );
        lemma_child(input, node, from, depth);
        lemma_separated(input, node, parent, from + 1, to, depth);
    }
}

proof fn lemma_parenthesized(input: ParseInput, node: int, depth: int)
    requires
        is_ready(input, node),
        has_parts(input, node),
        input.tree.kind_of(node) == GDScriptNodeKind::ParenthesizedExpression,
        is_depth(input, node, depth),
    ensures
        is_sound(input, parenthesized_docs(input, node), depth),
    decreases input.tree.size() - node, 15int, 0int,
{
    let kind = GDScriptNodeKind::ParenthesizedExpression;
    let count = input.tree.child_count_of(node);
    lemma_children(input, node, 0, depth);
    assert(children_docs(input, node) == children_from(input, node, 0));
    if count >= 3 {
        lemma_part(input, node, 1);
        lemma_child(input, node, 0, depth);
        lemma_child(input, node, 1, depth + 1);
        lemma_child(input, node, count - 1, depth + 1);
        lemma_separated(input, node, kind, 2, count - 1, depth + 1);
        assert(is_sound(input, run_docs(input, node, kind, 1, count - 1), depth + 1));
    }
}

proof fn lemma_element(input: ParseInput, node: int, index: int, depth: int)
    requires
        is_ready(input, node),
        has_parts(input, node),
        kind_is_delimited(input.tree.kind_of(node)),
        0 < index < input.tree.child_count_of(node) - 1,
        is_depth(input, node, depth),
        depth > 0,
    ensures
        is_sound(input, element_docs(input, node, index), depth),
    decreases input.tree.size() - node, 2int, 0int,
{
    lemma_part(input, node, index);
    lemma_part(input, node, index - 1);
    lemma_separator(
        input,
        input.tree.kind_of(node),
        input.tree.child_of(node, index - 1),
        input.tree.child_of(node, index),
        depth,
    );
    lemma_fixed_deltas();
    lemma_child(input, node, index, depth);
    assert(is_sound(input, trailing_comma(), depth));
    assert(is_sound(input, element_separator_docs(input, node, index), depth));
    assert(is_sound(input, after_comma_docs(input, node, index), depth));
}

proof fn lemma_elements(input: ParseInput, node: int, index: int, depth: int)
    requires
        is_ready(input, node),
        has_parts(input, node),
        kind_is_delimited(input.tree.kind_of(node)),
        0 < index,
        is_depth(input, node, depth),
        depth > 0,
    ensures
        is_sound(input, elements_from(input, node, index), depth),
    decreases input.tree.size() - node, 10int, input.tree.children_left(node, index),
{
    if index < input.tree.child_count_of(node) - 1 {
        lemma_element(input, node, index, depth);
        lemma_elements(input, node, index + 1, depth);
    }
}

proof fn lemma_container(input: ParseInput, node: int, depth: int)
    requires
        is_ready(input, node),
        has_parts(input, node),
        kind_is_delimited(input.tree.kind_of(node)),
        is_depth(input, node, depth),
    ensures
        is_sound(input, container_docs(input, node), depth),
    decreases input.tree.size() - node, 15int, 0int,
{
    reveal(after_elements_docs);
    let count = input.tree.child_count_of(node);
    lemma_fixed_deltas();
    lemma_child(input, node, 0, depth);
    lemma_child(input, node, count - 1, depth + 1);
    lemma_elements(input, node, 1, depth + 1);
    assert(is_sound(input, trailing_comma(), depth + 1));
    assert(is_sound(input, after_elements_docs(input, node), depth + 1));
    if count >= 3 {
        assert(is_sound(input, container_contents(input, node), depth));
    } else {
        assert(count == 2);
    }
}

/// The operator of a binary expression in a chain.
proof fn lemma_operator(
    input: ParseInput,
    ancestor: int,
    node: int,
    index: int,
    has_part: bool,
    depth: int,
)
    requires
        is_ready(input, node),
        has_parts(input, node),
        !kind_is_delimited(input.tree.kind_of(node)),
        0 <= ancestor <= node,
        0 <= index,
        is_depth(input, node, depth),
    ensures
        is_sound(input, operator_docs(input, ancestor, node, index, has_part), depth),
    decreases input.tree.size() - ancestor, 8int, input.tree.child_count_of(node) - index,
{
    if index < input.tree.child_count_of(node) {
        let child = input.tree.child_of(node, index);
        lemma_child_depth(input, node, index);
        lemma_part(input, node, index);
        lemma_node(input, child, depth);
        assert(below_docs(input, ancestor, child) == node_docs(input, child));
        lemma_operator(input, ancestor, node, index + 1, true, depth);
        lemma_operator(input, ancestor, node, index + 1, has_part, depth);
    }
}

/// True of a part of a chain below an expression: an expression, and a binary
/// expression that its operator comes from.
spec fn is_chain_part(input: ParseInput, root: int, segment: Segment) -> bool {
    &&& root < segment.expression
    &&& is_ready(input, segment.expression)
    &&& is_between_delimiters(*input.tree, segment.expression) == is_between_delimiters(
        *input.tree,
        root,
    )
    &&& segment.operated_by matches Some(operated_by) ==> root <= operated_by && is_ready(
        input,
        operated_by,
    ) && has_parts(input, operated_by) && input.tree.kind_of(operated_by)
        == GDScriptNodeKind::BinaryOperator && is_between_delimiters(*input.tree, operated_by)
        == is_between_delimiters(*input.tree, root)
}

/// True of the parts of a chain below an expression.
spec fn are_chain_parts(input: ParseInput, root: int, segments: Seq<Segment>) -> bool {
    forall|i: int| 0 <= i < segments.len() ==> is_chain_part(input, root, #[trigger] segments[i])
}

proof fn lemma_segments(
    input: ParseInput,
    node: int,
    segments: Seq<Segment>,
    index: int,
    has_comment: bool,
    depth: int,
)
    requires
        input.tree.has(node),
        are_chain_parts(input, node, segments),
        is_depth(input, node, depth),
        depth > 0,
        0 <= index,
    ensures
        is_sound(input, segments_from(input, node, segments, index, has_comment), depth),
    decreases input.tree.size() - node, 10int, segments.len() - index,
{
    if index < segments.len() {
        let segment = segments[index];
        assert(is_chain_part(input, node, segment));
        lemma_node(input, segment.expression, depth);
        assert(below_docs(input, node, segment.expression) == node_docs(
            input,
            segment.expression,
        ));
        match segment.operated_by {
            Some(operated_by) => {
                lemma_operator(input, node, operated_by, 0, false, depth);
            },
            None => {},
        }
        lemma_segments(input, node, segments, index + 1, has_comment, depth);
    }
}

/// There are no comments in an expression.
proof fn lemma_no_comments(input: ParseInput, node: int, index: int)
    requires
        is_ready(input, node),
        has_parts(input, node),
        0 <= index,
    ensures
        comment_segments(*input.tree, node, index) == Seq::<Segment>::empty(),
    decreases input.tree.child_count_of(node) - index,
{
    if index < input.tree.child_count_of(node) {
        lemma_part(input, node, index);
        lemma_no_comments(input, node, index + 1);
    }
}

/// The operand of a binary expression.
proof fn lemma_operand(input: ParseInput, node: int, operand: int)
    requires
        is_ready(input, node),
        has_parts(input, node),
        !kind_is_delimited(input.tree.kind_of(node)),
        input.tree.is_child(node, operand),
    ensures
        node < operand,
        is_ready(input, operand),
        is_between_delimiters(*input.tree, operand) == is_between_delimiters(*input.tree, node),
{
    let index = choose|index: int|
        #![trigger input.tree.child_of(node, index)]
        0 <= index < input.tree.child_count_of(node) && input.tree.child_of(node, index) == operand;
    lemma_part(input, node, index);
    lemma_child_depth(input, node, index);
}

proof fn lemma_binary_operator(input: ParseInput, node: int, depth: int)
    requires
        is_ready(input, node),
        has_parts(input, node),
        input.tree.kind_of(node) == GDScriptNodeKind::BinaryOperator,
        is_depth(input, node, depth),
    ensures
        is_sound(input, binary_operator_docs(input, node), depth),
    decreases input.tree.size() - node, 15int, 0int,
{
    let operator = operator_text(input, node);
    let segments = chain_segments(input, node, operator);
    let has_comment = chain_has_comment(input, node, operator);
    lemma_children(input, node, 0, depth);
    assert(children_docs(input, node) == children_from(input, node, 0));
    lemma_searches(*input.tree, node);
    lemma_fixed_deltas();
    lemma_chain_of(input, node);
    lemma_segments(input, node, segments, 0, has_comment, depth + 1);
    if depth > 0 {
        lemma_segments(input, node, segments, 0, has_comment, depth);
    }
}

/// The chain that a binary expression ends.
proof fn lemma_chain_of(input: ParseInput, node: int)
    requires
        is_ready(input, node),
        has_parts(input, node),
        input.tree.kind_of(node) == GDScriptNodeKind::BinaryOperator,
    ensures
        are_chain_parts(input, node, chain_segments(input, node, operator_text(input, node))),
{
    let operator = operator_text(input, node);
    lemma_chain_parts(input, node, node, operator);
}

/// The parts of a chain are expressions.
proof fn lemma_chain_parts(input: ParseInput, root: int, node: int, operator: Seq<u8>)
    requires
        is_ready(input, node),
        input.tree.kind_of(node) == GDScriptNodeKind::BinaryOperator,
        0 <= root <= node,
        is_between_delimiters(*input.tree, node) == is_between_delimiters(*input.tree, root),
    ensures
        are_chain_parts(input, root, chain_segments(input, node, operator)),
    decreases input.tree.size() - node,
{
    let tree = *input.tree;
    let level = level_segments(tree, node);
    tree.lemma_links(node);
    if input.tree.child_count_of(node) == 0 {
        assert(tree.left_of(node) is None && tree.right_of(node) is None) by {
            if tree.left_of(node) is Some {
                assert(tree.is_child(node, tree.left_of(node)->0 as int));
            }
            if tree.right_of(node) is Some {
                assert(tree.is_child(node, tree.right_of(node)->0 as int));
            }
        }
        assert(chain_segments(input, node, operator) =~= Seq::<Segment>::empty());
    } else {
        lemma_no_comments(input, node, 0);
        match tree.right_of(node) {
            Some(right) => {
                lemma_operand(input, node, right as int);
                assert(level.len() == 1);
            },
            None => {
                assert(level.len() == 0);
            },
        }
        assert(are_chain_parts(input, root, level));
        match tree.left_of(node) {
            Some(left) => {
                lemma_operand(input, node, left as int);
                let front = if continues_left(input, node, operator) {
                    lemma_chain_parts(input, root, left as int, operator);
                    chain_segments(input, left as int, operator)
                } else {
                    seq![Segment { operated_by: None, expression: left as int }]
                };
                let all = front + level;
                assert forall|i: int| 0 <= i < all.len() implies is_chain_part(
                    input,
                    root,
                    #[trigger] all[i],
                ) by {
                    if i < front.len() {
                        assert(all[i] == front[i]);
                    } else {
                        assert(all[i] == level[i - front.len()]);
                    }
                }
            },
            None => {},
        }
    }
}

proof fn lemma_conditional_from(input: ParseInput, node: int, index: int, depth: int)
    requires
        is_ready(input, node),
        has_parts(input, node),
        input.tree.kind_of(node) == GDScriptNodeKind::Condition,
        0 <= index,
        is_depth(input, node, depth),
        depth > 0,
    ensures
        is_sound(input, conditional_from(input, node, index), depth),
    decreases input.tree.size() - node, 10int, input.tree.children_left(node, index),
{
    if index < input.tree.child_count_of(node) {
        lemma_part(input, node, index);
        if index > 0 {
            lemma_part(input, node, index - 1);
            lemma_separator(
                input,
                GDScriptNodeKind::Condition,
                input.tree.child_of(node, index - 1),
                input.tree.child_of(node, index),
                depth,
            );
            assert(is_sound(input, conditional_separator_docs(input, node, index), depth));
        }
        assert(continued_docs(input, node, index) == child_docs(input, node, index));
        lemma_child(input, node, index, depth);
        lemma_conditional_from(input, node, index + 1, depth);
    }
}

proof fn lemma_conditional(input: ParseInput, node: int, depth: int)
    requires
        is_ready(input, node),
        has_parts(input, node),
        input.tree.kind_of(node) == GDScriptNodeKind::Condition,
        is_depth(input, node, depth),
    ensures
        is_sound(input, conditional_docs(input, node), depth),
    decreases input.tree.size() - node, 15int, 0int,
{
    let count = input.tree.child_count_of(node);
    lemma_children(input, node, 0, depth);
    assert(children_docs(input, node) == children_from(input, node, 0));
    lemma_searches(*input.tree, node);
    lemma_fixed_deltas();
    lemma_no_backslash(input, node, 0);
    lemma_conditional_from(input, node, 0, depth + 1);
    if depth > 0 {
        lemma_conditional_from(input, node, 0, depth);
    }
}

/// There are no backslashes in an expression.
proof fn lemma_no_backslash(input: ParseInput, node: int, from: int)
    requires
        is_ready(input, node),
        has_parts(input, node),
        0 <= from,
    ensures
        first_child_of_kind(
            *input.tree,
            node,
            from,
            input.tree.child_count_of(node),
            GDScriptNodeKind::LineContinuation,
        ) is None,
{
    let count = input.tree.child_count_of(node);
    let kind = GDScriptNodeKind::LineContinuation;
    first_child_of_kind_is_the_first(*input.tree, node, from, count, kind);
    match first_child_of_kind(*input.tree, node, from, count, kind) {
        Some(index) => lemma_part(input, node, index),
        None => {},
    }
}

proof fn lemma_flat_arguments(input: ParseInput, arguments: int, depth: int)
    requires
        is_ready(input, arguments),
        !kind_is_copied(input.tree.kind_of(arguments)),
        is_depth(input, arguments, depth),
    ensures
        is_sound(input, flat_arguments_docs(input, arguments), depth),
    decreases input.tree.size() - arguments, 15int, 0int,
{
    let count = input.tree.child_count_of(arguments);
    let kind = input.tree.kind_of(arguments);
    if count >= 2 && has_parts(input, arguments) {
        let end = if count >= 3 && input.tree.child_kind_of(arguments, count - 2)
            == GDScriptNodeKind::TokenComma {
            count - 2
        } else {
            count - 1
        };
        let inner = if kind_is_delimited(kind) {
            depth + 1
        } else {
            depth
        };
        lemma_child(input, arguments, 0, depth);
        lemma_child(input, arguments, count - 1, inner);
        lemma_separated(input, arguments, kind, 1, end, inner);
        lemma_part(input, arguments, end - 1);
        lemma_part(input, arguments, count - 1);
        lemma_separator(
            input,
            kind,
            input.tree.child_of(arguments, end - 1),
            input.tree.child_of(arguments, count - 1),
            inner,
        );
    }
}

proof fn lemma_method_arguments(input: ParseInput, call: int, is_last: bool, depth: int)
    requires
        is_ready(input, call),
        has_parts(input, call),
        input.tree.kind_of(call) == GDScriptNodeKind::AttributeCall,
        is_depth(input, call, depth),
    ensures
        is_sound(input, method_arguments_docs(input, call, is_last), depth),
    decreases input.tree.size() - call, 2int, 0int,
{
    if input.tree.child_count_of(call) > 1 {
        let arguments = input.tree.child_of(call, 1);
        lemma_part(input, call, 1);
        lemma_child_depth(input, call, 1);
        lemma_node(input, arguments, depth);
        lemma_flat_arguments(input, arguments, depth);
    }
}

/// The part of a chain of calls behind a dot.
proof fn lemma_member(input: ParseInput, node: int, index: int, depth: int)
    requires
        is_ready(input, node),
        has_parts(input, node),
        input.tree.kind_of(node) == GDScriptNodeKind::Attribute,
        0 <= index,
        is_depth(input, node, depth),
    ensures
        is_sound(input, member_docs(input, node, index), depth),
        is_sound(input, member_arguments_docs(input, node, index), depth),
    decreases input.tree.size() - node, 3int, 0int,
{
    if index < input.tree.child_count_of(node) {
        let child = input.tree.child_of(node, index);
        let is_last = index + 1 >= input.tree.child_count_of(node);
        lemma_child(input, node, index, depth);
        lemma_part(input, node, index);
        lemma_child_depth(input, node, index);
        if input.tree.kind_of(child) == GDScriptNodeKind::AttributeCall
            && input.tree.child_count_of(child) > 0 {
            lemma_child(input, child, 0, depth);
            lemma_method_arguments(input, child, is_last, depth);
        }
    }
}

proof fn lemma_chain(
    input: ParseInput,
    node: int,
    index: int,
    is_implicit: bool,
    depth: int,
)
    requires
        is_ready(input, node),
        has_parts(input, node),
        input.tree.kind_of(node) == GDScriptNodeKind::Attribute,
        0 <= index,
        is_depth(input, node, depth),
        is_implicit ==> depth > 0,
    ensures
        is_sound(input, chain_from(input, node, index, is_implicit, false), depth),
    decreases input.tree.size() - node, 10int, input.tree.children_left(node, index),
{
    if index < input.tree.child_count_of(node) {
        lemma_part(input, node, index);
        lemma_child(input, node, index, depth);
        lemma_member(input, node, index + 1, depth);
        lemma_chain(input, node, index + 2, is_implicit, depth);
        lemma_backslash(input, depth);
        let broken = if_multiline(space() + fixed("\\"@)) + soft_line() + child_docs(
            input,
            node,
            index,
        ) + member_docs(input, node, index + 1);
        assert(is_sound(input, broken, depth));
        let level = input.continuation_indent_level as int;
        assert(is_sound(input, indented(level, broken), depth));
    }
}

proof fn lemma_attribute(input: ParseInput, node: int, depth: int)
    requires
        is_ready(input, node),
        has_parts(input, node),
        input.tree.kind_of(node) == GDScriptNodeKind::Attribute,
        is_depth(input, node, depth),
    ensures
        is_sound(input, attribute_docs(input, node), depth),
    decreases input.tree.size() - node, 15int, 0int,
{
    lemma_children(input, node, 0, depth);
    assert(children_docs(input, node) == children_from(input, node, 0));
    lemma_child(input, node, 0, depth);
    lemma_searches(*input.tree, node);
    lemma_no_backslash(input, node, 1);
    lemma_chain(input, node, 1, false, depth);
    if depth > 0 {
        lemma_chain(input, node, 1, true, depth);
    }
}

/// An expression breaks its lines where the parser allows it: even where all
/// groups in its layout break, every line break stands between delimiters that
/// are open, of the source or inserted around it, or behind a backslash, and all
/// delimiters are closed in the end. This is about expressions, and statements
/// without a body, that are not between delimiters themselves.
pub proof fn expressions_break_between_delimiters(input: ParseInput, node: int)
    requires
        input.tree_fits(),
        input.disabled_regions@.len() == 0,
        input.tree.has(node),
        is_expression(input, node),
        !is_between_delimiters(*input.tree, node),
    ensures
        holds_together(input, node_docs(input, node), 0),
        delta(input, node_docs(input, node)) == 0,
{
    lemma_node(input, node, 0);
}

} // verus!
