//! How expressions in parentheses are laid out.
use vstd::prelude::*;

use crate::document::{group_concat, grouped, indented, nothing, soft_line};
use crate::formatter::nodes::{
    child_docs, children_docs, children_from, node_docs, parenthesized_docs, run_docs,
    separated_docs,
};
use crate::formatter::queries::{contains_forced_multiline, contains_lambda};
use crate::formatter::spacing::{lemma_children_row, parts_follow};
use crate::node_kind::GDScriptNodeKind;
use crate::parser::ParseInput;
use crate::syntax_tree::SyntaxTree;
use crate::formatter::expressions::has_none;

verus! {

broadcast use group_concat;

/// An expression in parentheses that spans several lines in the source is a group
/// that breaks inside of the parentheses, unless it is one that indents its own
/// contents.
pub proof fn parentheses_on_several_lines_break(input: ParseInput, node: int)
    requires
        input.tree.kind_of(node) == GDScriptNodeKind::ParenthesizedExpression,
        input.tree.child_count_of(node) == 3,
        input.tree.child_kind_of(node, 1) != GDScriptNodeKind::Lambda,
        input.tree.child_kind_of(node, 1) != GDScriptNodeKind::Array,
        input.tree.child_kind_of(node, 1) != GDScriptNodeKind::Dictionary,
        exists|offset: int|
            input.tree.end_of(input.tree.child_of(node, 0)) <= offset < input.tree.start_of(
                input.tree.child_of(node, 2),
            ) && #[trigger] input.bytes()[offset] == 10u8,
    ensures
        node_docs(input, node) == grouped(
            child_docs(input, node, 0) + soft_line() + indented(1, child_docs(input, node, 1))
                + soft_line() + child_docs(input, node, 2),
        ),
{
    let kind = GDScriptNodeKind::ParenthesizedExpression;
    assert(separated_docs(input, node, kind, 2, 2) == nothing());
    assert(run_docs(input, node, kind, 1, 2) =~= child_docs(input, node, 1));
    assert(node_docs(input, node) == parenthesized_docs(input, node));
}

/// An expression in parentheses on one line stays there, unless a lambda or a
/// conditional expression is in it.
pub proof fn parentheses_on_one_line_stay_there(input: ParseInput, node: int, index: int)
    requires
        input.disabled_regions@.len() == 0,
        input.tree.kind_of(node) == GDScriptNodeKind::ParenthesizedExpression,
        input.tree.child_count_of(node) == 3,
        forall|offset: int|
            input.tree.end_of(input.tree.child_of(node, 0)) <= offset < input.tree.start_of(
                input.tree.child_of(node, 2),
            ) ==> #[trigger] input.bytes()[offset] != 10u8,
        !contains_forced_multiline(*input.tree, node),
        has_none(*input.tree, node, GDScriptNodeKind::LineContinuation),
        has_none(*input.tree, node, GDScriptNodeKind::Lambda),
        index == 0 || index == 1,
    ensures
        parts_follow(
            input,
            node,
            GDScriptNodeKind::ParenthesizedExpression,
            node_docs(input, node),
            index,
        ),
{
    assert(input.tree.child_of(node, 0) == input.tree.child_of(node, 0));
    assert(input.tree.child_of(node, 1) == input.tree.child_of(node, 1));
    assert(input.tree.child_of(node, 2) == input.tree.child_of(node, 2));
    lemma_children_row(input, node, 0, index);
    assert(node_docs(input, node) == parenthesized_docs(input, node));
    assert(children_docs(input, node) == children_from(input, node, 0));
}

/// A node contains what its children contain: a lambda, or something that spans
/// several lines.
pub proof fn nodes_contain_what_their_children_contain(tree: SyntaxTree, node: int, index: int)
    requires
        0 <= index < tree.child_count_of(node),
        node < tree.child_of(node, index) < tree.size(),
    ensures
        contains_lambda(tree, tree.child_of(node, index)) ==> contains_lambda(tree, node),
        contains_forced_multiline(tree, tree.child_of(node, index)) ==> contains_forced_multiline(
            tree,
            node,
        ),
        tree.kind_of(node) == GDScriptNodeKind::Lambda ==> contains_lambda(tree, node)
            && contains_forced_multiline(tree, node),
        tree.kind_of(node) == GDScriptNodeKind::Condition ==> contains_forced_multiline(tree, node),
{
    let child = tree.child_of(node, index);
    assert(tree.child_of(node, index) == child);
}

/// The parentheses around an array or a dictionary add no indentation and no line
/// break to those that it has itself, however many lines it spans.
pub proof fn parentheses_stay_around_containers(input: ParseInput, node: int, index: int)
    requires
        input.disabled_regions@.len() == 0,
        input.tree.kind_of(node) == GDScriptNodeKind::ParenthesizedExpression,
        input.tree.child_count_of(node) == 3,
        input.tree.child_kind_of(node, 1) == GDScriptNodeKind::Array || input.tree.child_kind_of(
            node,
            1,
        ) == GDScriptNodeKind::Dictionary,
        has_none(*input.tree, node, GDScriptNodeKind::LineContinuation),
        has_none(*input.tree, node, GDScriptNodeKind::Lambda),
        index == 0 || index == 1,
    ensures
        parts_follow(
            input,
            node,
            GDScriptNodeKind::ParenthesizedExpression,
            node_docs(input, node),
            index,
        ),
{
    assert(input.tree.child_of(node, 0) == input.tree.child_of(node, 0));
    assert(input.tree.child_of(node, 1) == input.tree.child_of(node, 1));
    assert(input.tree.child_of(node, 2) == input.tree.child_of(node, 2));
    lemma_children_row(input, node, 0, index);
    assert(node_docs(input, node) == parenthesized_docs(input, node));
    assert(children_docs(input, node) == children_from(input, node, 0));
}

/// The parentheses around a lambda that is an argument of a call follow it
/// directly, and the closing one is indented like the body of the lambda.
pub proof fn parentheses_stay_around_lambdas(input: ParseInput, node: int, parent: int)
    requires
        input.tree.kind_of(node) == GDScriptNodeKind::ParenthesizedExpression,
        input.tree.child_count_of(node) == 3,
        input.tree.child_kind_of(node, 1) == GDScriptNodeKind::Lambda,
        0 <= parent <= usize::MAX,
        input.tree.parent_of(node) == Some(parent as usize),
        input.tree.kind_of(parent) == GDScriptNodeKind::Arguments,
    ensures
        node_docs(input, node) == child_docs(input, node, 0) + child_docs(input, node, 1)
            + indented(1, child_docs(input, node, 2)),
{
    assert(node_docs(input, node) == parenthesized_docs(input, node));
}

} // verus!
