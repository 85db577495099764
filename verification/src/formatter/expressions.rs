//! How conditional expressions are laid out.
use vstd::prelude::*;

use crate::document::{fixed, force_break, group_concat, grouped, indented, nothing, soft_line, Doc};
use crate::formatter::line_breaks::{is_between_delimiters, lemma_searches};
use crate::formatter::nodes::{child_docs, children_docs, children_from, continued_docs, node_docs};
use crate::formatter::operators::{conditional_docs, conditional_from, conditional_separator_docs};
use crate::formatter::queries::{first_child_of_kind, first_child_of_kind_is_the_first};
use crate::formatter::rows::{in_a_row, lemma_row, lemma_row_inside};
use crate::formatter::spacing::{
    is_part_gap, is_plain_part, lemma_children_row, parts_follow, separators_keep_words_apart,
};
use crate::node_kind::GDScriptNodeKind;
use crate::parser::ParseInput;
use crate::syntax_tree::SyntaxTree;
use crate::formatter::queries::{ancestor, ancestor_is_among, parentheses_around_are_found};

verus! {

broadcast use group_concat;

/// True of a node without a child of a kind.
pub open spec fn has_none(tree: SyntaxTree, node: int, kind: GDScriptNodeKind) -> bool {
    forall|index: int|
        #![trigger tree.child_of(node, index)]
        0 <= index < tree.child_count_of(node) ==> tree.child_kind_of(node, index) != kind
}

/// Where there is no child of a kind, none is found.
pub proof fn lemma_none(tree: SyntaxTree, node: int, from: int, kind: GDScriptNodeKind)
    requires
        has_none(tree, node, kind),
        0 <= from,
    ensures
        first_child_of_kind(tree, node, from, tree.child_count_of(node), kind) is None,
{
    let count = tree.child_count_of(node);
    first_child_of_kind_is_the_first(tree, node, from, count, kind);
    match first_child_of_kind(tree, node, from, count, kind) {
        Some(index) => {
            assert(tree.child_of(node, index) == tree.child_of(node, index));
        },
        None => {},
    }
}

/// What may stand between two parts of a conditional expression on several
/// lines: a line break in front of `if` and `else`, unless a comment has ended
/// the line, and what may stand between parts otherwise.
pub open spec fn is_conditional_gap(input: ParseInput, node: int, index: int, gap: Seq<Doc>) -> bool {
    let previous = input.tree.child_of(node, index);
    let current = input.tree.child_of(node, index + 1);
    if (input.tree.name_of(current) == "if"@ || input.tree.name_of(current) == "else"@)
        && input.tree.kind_of(previous) != GDScriptNodeKind::Comment {
        gap == soft_line()
    } else {
        is_part_gap(input, GDScriptNodeKind::Condition, previous, current, gap)
    }
}

/// True where a part of a conditional expression and the next one follow each
/// other.
pub open spec fn conditional_parts_follow(
    input: ParseInput,
    node: int,
    docs: Seq<Doc>,
    index: int,
) -> bool {
    exists|gap: Seq<Doc>|
        is_conditional_gap(input, node, index, gap) && #[trigger] in_a_row(
            docs,
            child_docs(input, node, index),
            gap,
            child_docs(input, node, index + 1),
        )
}

proof fn lemma_conditional_row(input: ParseInput, node: int, from: int, index: int)
    requires
        has_none(*input.tree, node, GDScriptNodeKind::LineContinuation),
        0 <= from <= index,
        index + 1 < input.tree.child_count_of(node),
    ensures
        conditional_parts_follow(input, node, conditional_from(input, node, from), index),
    decreases index - from,
{
    let front = if from > 0 {
        conditional_separator_docs(input, node, from)
    } else {
        nothing()
    };
    let first = child_docs(input, node, from);
    let rest = conditional_from(input, node, from + 1);
    assert(input.tree.child_of(node, from) == input.tree.child_of(node, from));
    if from > 0 {
        assert(input.tree.child_of(node, from - 1) == input.tree.child_of(node, from - 1));
    }
    assert(continued_docs(input, node, from) == first);
    assert(conditional_from(input, node, from) == front + first + rest);
    if from == index {
        let gap = conditional_separator_docs(input, node, index + 1);
        let second = child_docs(input, node, index + 1);
        let behind = conditional_from(input, node, index + 2);
        assert(input.tree.child_of(node, index + 1) == input.tree.child_of(node, index + 1));
        assert(continued_docs(input, node, index + 1) == second);
        separators_keep_words_apart(
            input,
            GDScriptNodeKind::Condition,
            input.tree.child_of(node, index),
            input.tree.child_of(node, index + 1),
        );
        assert(is_conditional_gap(input, node, index, gap));
        assert(rest == gap + second + behind);
        assert(front + first + rest =~= front + first + gap + second + behind);
        lemma_row(front, first, gap, second, behind);
    } else {
        lemma_conditional_row(input, node, from + 1, index);
        let gap = choose|gap: Seq<Doc>|
            is_conditional_gap(input, node, index, gap) && #[trigger] in_a_row(
                rest,
                child_docs(input, node, index),
                gap,
                child_docs(input, node, index + 1),
            );
        lemma_row_inside(
            front + first,
            rest,
            nothing(),
            child_docs(input, node, index),
            gap,
            child_docs(input, node, index + 1),
        );
        assert(front + first + rest =~= front + first + rest + nothing());
    }
}

/// A conditional expression that spans several lines in the source does so in the
/// layout: it is a group that is made to break, with a line break in front of
/// `if` and `else`. Unless it is between delimiters, it stands in parentheses,
/// one level further to the right. Inside of parentheses it gets none of its own.
pub proof fn conditionals_on_several_lines_break(input: ParseInput, node: int, index: int)
    requires
        input.tree.kind_of(node) == GDScriptNodeKind::Condition,
        input.tree.child_count_of(node) >= 5,
        exists|offset: int|
            input.tree.start_of(node) <= offset < input.tree.end_of(node)
                && #[trigger] input.bytes()[offset] == 10u8,
        has_none(*input.tree, node, GDScriptNodeKind::LineContinuation),
        0 <= index,
        index + 1 < input.tree.child_count_of(node),
    ensures
        exists|inner: Seq<Doc>| #[trigger]
            conditional_parts_follow(input, node, inner, index) && {
                let parts = grouped(force_break() + inner);
                let in_parentheses = grouped(
                    fixed("("@) + force_break() + soft_line() + indented(1, parts) + soft_line()
                        + fixed(")"@),
                );
                &&& node_docs(input, node) == in_parentheses || is_between_delimiters(
                    *input.tree,
                    node,
                ) && node_docs(input, node) == parts
                &&& (exists|steps: nat|
                    #![trigger ancestor(*input.tree, node, steps)]
                    steps > 0 && ancestor_is_among(
                        *input.tree,
                        node,
                        steps,
                        set![GDScriptNodeKind::ParenthesizedExpression],
                    )) ==> node_docs(input, node) == parts
            },
{
    let inner = conditional_from(input, node, 0);
    lemma_conditional_row(input, node, 0, index);
    lemma_none(*input.tree, node, 0, GDScriptNodeKind::LineContinuation);
    lemma_searches(*input.tree, node);
    if exists|steps: nat|
        #![trigger ancestor(*input.tree, node, steps)]
        steps > 0 && ancestor_is_among(
            *input.tree,
            node,
            steps,
            set![GDScriptNodeKind::ParenthesizedExpression],
        ) {
        let steps = choose|steps: nat|
            #![trigger ancestor(*input.tree, node, steps)]
            steps > 0 && ancestor_is_among(
                *input.tree,
                node,
                steps,
                set![GDScriptNodeKind::ParenthesizedExpression],
            );
        parentheses_around_are_found(*input.tree, node, steps);
    }
    assert(node_docs(input, node) == conditional_docs(input, node));
}

/// A conditional expression on one line stays there: its parts follow each other
/// with what may stand between parts.
pub proof fn conditionals_on_one_line_stay_there(input: ParseInput, node: int, index: int)
    requires
        input.disabled_regions@.len() == 0,
        input.tree.kind_of(node) == GDScriptNodeKind::Condition,
        forall|offset: int|
            input.tree.start_of(node) <= offset < input.tree.end_of(node)
                ==> #[trigger] input.bytes()[offset] != 10u8,
        has_none(*input.tree, node, GDScriptNodeKind::LineContinuation),
        0 <= index,
        index + 1 < input.tree.child_count_of(node),
    ensures
        parts_follow(input, node, GDScriptNodeKind::Condition, node_docs(input, node), index),
{
    assert(is_plain_part(input, node, index) && is_plain_part(input, node, index + 1)) by {
        assert(input.tree.child_of(node, index) == input.tree.child_of(node, index));
        assert(input.tree.child_of(node, index + 1) == input.tree.child_of(node, index + 1));
        if index > 0 {
            assert(input.tree.child_of(node, index - 1) == input.tree.child_of(node, index - 1));
        }
    }
    lemma_children_row(input, node, 0, index);
    assert(node_docs(input, node) == conditional_docs(input, node));
    assert(children_docs(input, node) == children_from(input, node, 0));
}

} // verus!
