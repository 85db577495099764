//! How lambdas are laid out.
use vstd::prelude::*;

use crate::document::{
    fixed, force_break, group_concat, grouped, hard_line, if_single_line, indented, nothing,
    soft_line, space, Doc,
};
use crate::formatter::bodies::{
    body_comma_docs, body_docs, body_from, body_gap_docs, inline_comment_after, lambda_adds_comma,
    lambda_docs, lambda_from, trailing_comments_start,
};
use crate::formatter::nodes::{below_docs, child_docs, node_docs};
use crate::formatter::queries::{
    first_child_of_kind, first_child_of_kind_is_the_first, has_child_of_kind,
    lambda_ends_with_match, parent_is,
};
use crate::formatter::regions::overlap;
use crate::formatter::rows::{in_a_row, lemma_row, lemma_row_behind, lemma_row_inside};
use crate::formatter::separators::lambda_separator_docs;
use crate::formatter::spacing::is_bracket_kind;
use crate::node_kind::GDScriptNodeKind;
use crate::parser::ParseInput;
use crate::syntax_tree::SyntaxTree;

verus! {

broadcast use group_concat;

/// True of blocks of statements.
pub open spec fn is_block(kind: GDScriptNodeKind) -> bool {
    kind == GDScriptNodeKind::Body || kind == GDScriptNodeKind::ClassBody || kind
        == GDScriptNodeKind::MatchBody
}

/// What may stand between two parts of the header of a lambda: a line break
/// behind a comment, nothing in front of punctuation and between a name and its
/// parameters, and a space otherwise.
pub open spec fn is_lambda_gap(
    first: GDScriptNodeKind,
    second: GDScriptNodeKind,
    gap: Seq<Doc>,
) -> bool {
    if first == GDScriptNodeKind::Comment {
        gap == hard_line()
    } else if is_bracket_kind(second) || second == GDScriptNodeKind::TokenColon || second
        == GDScriptNodeKind::Parameters && (first == GDScriptNodeKind::KeywordFunc || first
        == GDScriptNodeKind::Identifier) {
        gap == nothing()
    } else {
        gap == space()
    }
}

proof fn lemma_lambda_row(input: ParseInput, node: int, from: int, index: int) -> (gap: Seq<Doc>)
    requires
        0 <= from <= index,
        index + 1 < input.tree.child_count_of(node),
        forall|child: int|
            0 <= child <= index + 1 ==> !is_block(
                #[trigger] input.tree.child_kind_of(node, child),
            ),
    ensures
        is_lambda_gap(
            input.tree.child_kind_of(node, index),
            input.tree.child_kind_of(node, index + 1),
            gap,
        ),
        in_a_row(
            lambda_from(input, node, from),
            child_docs(input, node, index),
            gap,
            child_docs(input, node, index + 1),
        ),
    decreases index - from,
{
    let front = if from > 0 {
        lambda_separator_docs(
            input.tree.child_kind_of(node, from - 1),
            input.tree.child_kind_of(node, from),
        )
    } else {
        nothing()
    };
    let first = child_docs(input, node, from);
    let rest = lambda_from(input, node, from + 1);
    assert(input.tree.child_kind_of(node, from) != GDScriptNodeKind::Body);
    assert(lambda_from(input, node, from) == front + first + rest);
    if from == index {
        let gap = lambda_separator_docs(
            input.tree.child_kind_of(node, index),
            input.tree.child_kind_of(node, index + 1),
        );
        let second = child_docs(input, node, index + 1);
        let behind = lambda_from(input, node, index + 2);
        assert(input.tree.child_kind_of(node, index + 1) != GDScriptNodeKind::Body);
        assert(rest == gap + second + behind);
        assert(front + first + rest =~= front + first + gap + second + behind);
        lemma_row(front, first, gap, second, behind);
        gap
    } else {
        let gap = lemma_lambda_row(input, node, from + 1, index);
        lemma_row_inside(
            front + first,
            rest,
            nothing(),
            child_docs(input, node, index),
            gap,
            child_docs(input, node, index + 1),
        );
        assert(front + first + rest =~= front + first + rest + nothing());
        gap
    }
}

/// The parts of the header of a lambda follow each other, with what may stand
/// between them.
pub proof fn lambda_headers_follow_each_other(input: ParseInput, node: int, index: int)
    requires
        input.tree.kind_of(node) == GDScriptNodeKind::Lambda,
        0 <= index,
        index + 1 < input.tree.child_count_of(node),
        forall|child: int|
            0 <= child <= index + 1 ==> !is_block(
                #[trigger] input.tree.child_kind_of(node, child),
            ),
    ensures
        exists|inner: Seq<Doc>, gap: Seq<Doc>|
            node_docs(input, node) == grouped(inner) && is_lambda_gap(
                input.tree.child_kind_of(node, index),
                input.tree.child_kind_of(node, index + 1),
                gap,
            ) && #[trigger] in_a_row(
                inner,
                child_docs(input, node, index),
                gap,
                child_docs(input, node, index + 1),
            ),
{
    let gap = lemma_lambda_row(input, node, 0, index);
    let has_body = has_child_of_kind(*input.tree, node, GDScriptNodeKind::Body);
    let tail = (if has_body {
        force_break()
    } else {
        nothing()
    }) + (if has_body && parent_is(
        *input.tree,
        node,
        GDScriptNodeKind::ParenthesizedExpression,
    ) {
        hard_line()
    } else {
        nothing()
    });
    let parts = lambda_from(input, node, 0);
    let inner = nothing() + parts + tail;
    lemma_row_inside(
        nothing(),
        parts,
        tail,
        child_docs(input, node, index),
        gap,
        child_docs(input, node, index + 1),
    );
    assert(node_docs(input, node) == lambda_docs(input, node));
    assert(node_docs(input, node) == grouped(inner));
}

/// What stands in front of a part of a lambda.
spec fn front_docs(input: ParseInput, node: int, index: int) -> Seq<Doc> {
    let current = input.tree.child_kind_of(node, index);
    let previous = input.tree.child_kind_of(node, index - 1);
    if index == 0 {
        nothing()
    } else if current == GDScriptNodeKind::Body && previous == GDScriptNodeKind::TokenColon {
        soft_line() + if_single_line(space())
    } else {
        lambda_separator_docs(previous, current)
    }
}

/// A part of a lambda.
spec fn part_docs(input: ParseInput, node: int, index: int) -> Seq<Doc> {
    let child = input.tree.child_of(node, index);
    if input.tree.kind_of(child) == GDScriptNodeKind::Body && lambda_adds_comma(
        *input.tree,
        node,
    ) && node < child < input.tree.size() {
        body_docs(input, child, true)
    } else {
        child_docs(input, node, index)
    }
}

/// A lambda is laid out part by part.
proof fn lemma_lambda_step(input: ParseInput, node: int, index: int)
    requires
        0 <= index < input.tree.child_count_of(node),
    ensures
        lambda_from(input, node, index) == front_docs(input, node, index) + part_docs(
            input,
            node,
            index,
        ) + lambda_from(input, node, index + 1),
{
}

proof fn lemma_lambda_body(input: ParseInput, node: int, from: int, index: int) -> (body: Seq<Doc>)
    requires
        input.tree_fits(),
        input.tree.has(node),
        0 <= from < index < input.tree.child_count_of(node),
        input.tree.child_kind_of(node, index) == GDScriptNodeKind::Body,
        input.tree.child_count_of(input.tree.child_of(node, index)) > 0,
        input.tree.child_kind_of(node, index - 1) == GDScriptNodeKind::TokenColon,
    ensures
        in_a_row(
            lambda_from(input, node, from),
            child_docs(input, node, index - 1),
            soft_line() + if_single_line(space()),
            indented(1, body),
        ),
    decreases index - from,
{
    let first = child_docs(input, node, index - 1);
    let gap = soft_line() + if_single_line(space());
    let front = front_docs(input, node, from);
    let part = part_docs(input, node, from);
    let rest = lambda_from(input, node, from + 1);
    lemma_lambda_step(input, node, from);
    if from == index - 1 {
        let body = lemma_body_part(input, node, index);
        let behind = lambda_from(input, node, index + 1);
        lemma_lambda_step(input, node, index);
        assert(part == first);
        assert(rest == gap + indented(1, body) + behind);
        assert(front + part + rest =~= front + first + gap + indented(1, body) + behind);
        lemma_row(front, first, gap, indented(1, body), behind);
        body
    } else {
        let body = lemma_lambda_body(input, node, from + 1, index);
        lemma_row_inside(front + part, rest, nothing(), first, gap, indented(1, body));
        assert(front + part + rest =~= front + part + rest + nothing());
        body
    }
}

/// The body of a lambda is indented.
proof fn lemma_body_part(input: ParseInput, node: int, index: int) -> (body: Seq<Doc>)
    requires
        input.tree_fits(),
        input.tree.has(node),
        0 <= index < input.tree.child_count_of(node),
        input.tree.child_kind_of(node, index) == GDScriptNodeKind::Body,
        input.tree.child_count_of(input.tree.child_of(node, index)) > 0,
    ensures
        part_docs(input, node, index) == indented(1, body),
{
    let child = input.tree.child_of(node, index);
    input.tree.lemma_child(node, index);
    assert(child_docs(input, node, index) == below_docs(input, node, child));
    assert(below_docs(input, node, child) == node_docs(input, child));
    assert(node_docs(input, child) == body_docs(input, child, false));
    body_from(input, child, 0, false, lambda_adds_comma(*input.tree, node))
}

/// The body of a lambda stands behind its colon, on a new line where the lambda
/// breaks, one level further to the right.
pub proof fn lambda_bodies_stand_below(input: ParseInput, node: int, index: int)
    requires
        input.tree_fits(),
        input.tree.has(node),
        input.tree.kind_of(node) == GDScriptNodeKind::Lambda,
        0 < index < input.tree.child_count_of(node),
        input.tree.child_kind_of(node, index) == GDScriptNodeKind::Body,
        input.tree.child_count_of(input.tree.child_of(node, index)) > 0,
        input.tree.child_kind_of(node, index - 1) == GDScriptNodeKind::TokenColon,
    ensures
        exists|inner: Seq<Doc>, body: Seq<Doc>|
            node_docs(input, node) == grouped(inner) && #[trigger] in_a_row(
                inner,
                child_docs(input, node, index - 1),
                soft_line() + if_single_line(space()),
                indented(1, body),
            ),
{
    let body = lemma_lambda_body(input, node, 0, index);
    let has_body = has_child_of_kind(*input.tree, node, GDScriptNodeKind::Body);
    let tail = (if has_body {
        force_break()
    } else {
        nothing()
    }) + (if has_body && parent_is(
        *input.tree,
        node,
        GDScriptNodeKind::ParenthesizedExpression,
    ) {
        hard_line()
    } else {
        nothing()
    });
    let parts = lambda_from(input, node, 0);
    let inner = nothing() + parts + tail;
    lemma_row_inside(
        nothing(),
        parts,
        tail,
        child_docs(input, node, index - 1),
        soft_line() + if_single_line(space()),
        indented(1, body),
    );
    assert(node_docs(input, node) == lambda_docs(input, node));
    assert(node_docs(input, node) == grouped(inner));
}

/// True of a body that ends with comments from an index on, behind a statement.
pub open spec fn ends_with_comments(tree: SyntaxTree, node: int, start: int) -> bool {
    &&& 0 < start < tree.child_count_of(node)
    &&& tree.child_kind_of(node, start - 1) != GDScriptNodeKind::Comment
    &&& tree.child_kind_of(node, start - 1) != GDScriptNodeKind::SemiColon
    &&& forall|index: int|
        start <= index < tree.child_count_of(node) ==> #[trigger] tree.child_kind_of(node, index)
            == GDScriptNodeKind::Comment
}

/// The comments at the end of a body start behind its last statement.
proof fn lemma_trailing_comments(tree: SyntaxTree, node: int, start: int, to: int)
    requires
        ends_with_comments(tree, node, start),
        start <= to <= tree.child_count_of(node),
    ensures
        trailing_comments_start(tree, node, to) == start,
    decreases to,
{
    if start < to {
        assert(tree.child_kind_of(node, to - 1) == GDScriptNodeKind::Comment);
        lemma_trailing_comments(tree, node, start, to - 1);
    }
}

proof fn lemma_comma_row(
    input: ParseInput,
    node: int,
    from: int,
    follows_inline_comment: bool,
    start: int,
) -> (gap: Seq<Doc>)
    requires
        input.disabled_regions@.len() == 0,
        ends_with_comments(*input.tree, node, start),
        0 <= from < start,
    ensures
        in_a_row(
            body_from(input, node, from, follows_inline_comment, true),
            child_docs(input, node, start - 1),
            fixed(","@) + gap,
            child_docs(input, node, start),
        ),
    decreases start - from,
{
    let count = input.tree.child_count_of(node);
    let docs = body_from(input, node, from, follows_inline_comment, true);
    let child = child_docs(input, node, from);
    let inline = inline_comment_after(input, node, from, follows_inline_comment);
    let front = if from > 0 {
        body_gap_docs(input, node, from, follows_inline_comment)
    } else {
        nothing()
    };
    let first = child_docs(input, node, start - 1);
    let second = child_docs(input, node, start);
    assert(overlap(input, node, from) is Clear);
    lemma_trailing_comments(*input.tree, node, start, count);
    assert(body_comma_docs(input, node, from, true) == nothing());
    if from == start - 1 {
        let gap = body_gap_docs(input, node, start, inline);
        let next = inline_comment_after(input, node, start, inline);
        let rest = body_from(input, node, start + 1, next, true);
        assert(overlap(input, node, start) is Clear);
        assert(input.tree.child_kind_of(node, start) == GDScriptNodeKind::Comment);
        assert(body_comma_docs(input, node, start, true) == fixed(","@));
        assert(body_from(input, node, start, inline, true) == fixed(","@) + gap + second + rest);
        lemma_row(front, first, fixed(","@) + gap, second, rest);
        assert(docs == front + first + (fixed(","@) + gap) + second + rest);
        gap
    } else if input.tree.child_kind_of(node, from) == GDScriptNodeKind::SemiColon {
        let gap = lemma_comma_row(input, node, from + 1, follows_inline_comment, start);
        let rest = body_from(input, node, from + 1, follows_inline_comment, true);
        lemma_row_behind(hard_line(), rest, first, fixed(","@) + gap, second);
        gap
    } else {
        let gap = lemma_comma_row(input, node, from + 1, inline, start);
        let rest = body_from(input, node, from + 1, inline, true);
        lemma_row_behind(front + child, rest, first, fixed(","@) + gap, second);
        assert(docs == front + child + rest);
        gap
    }
}

/// Where a lambda is all that stands in an array or between the parentheses of a
/// call, and its body ends with comments, the comma that has to follow it stands
/// in front of these comments, directly behind the last statement, so that it does
/// not become a part of a comment.
pub proof fn commas_stand_in_front_of_comments(
    input: ParseInput,
    node: int,
    parent: int,
    index: int,
    start: int,
)
    requires
        input.tree_fits(),
        input.disabled_regions@.len() == 0,
        input.tree.has(node),
        input.tree.kind_of(node) == GDScriptNodeKind::Lambda,
        input.tree.parent_of(node) == Some(parent as usize),
        0 <= parent < node,
        input.tree.kind_of(parent) == GDScriptNodeKind::Array || input.tree.kind_of(parent)
            == GDScriptNodeKind::Arguments,
        input.tree.child_count_of(parent) == 3,
        input.tree.child_of(parent, 1) == node,
        !lambda_ends_with_match(*input.tree, node),
        0 < index < input.tree.child_count_of(node),
        input.tree.child_kind_of(node, index) == GDScriptNodeKind::Body,
        forall|before: int|
            0 <= before < index ==> #[trigger] input.tree.child_kind_of(node, before)
                != GDScriptNodeKind::Body,
        input.tree.child_kind_of(node, index - 1) == GDScriptNodeKind::TokenColon,
        ends_with_comments(*input.tree, input.tree.child_of(node, index), start),
    ensures
        ({
            let block = input.tree.child_of(node, index);
            exists|inner: Seq<Doc>, body: Seq<Doc>, gap: Seq<Doc>|
                #![trigger in_a_row(
                    inner,
                    child_docs(input, node, index - 1),
                    soft_line() + if_single_line(space()),
                    indented(1, body),
                ), fixed(","@) + gap]
                node_docs(input, node) == grouped(inner) && in_a_row(
                    inner,
                    child_docs(input, node, index - 1),
                    soft_line() + if_single_line(space()),
                    indented(1, body),
                ) && in_a_row(
                    body,
                    child_docs(input, block, start - 1),
                    fixed(","@) + gap,
                    child_docs(input, block, start),
                )
        }),
{
    let tree = *input.tree;
    let block = tree.child_of(node, index);
    let count = tree.child_count_of(node);
    let size = tree.child_count_of(block);
    first_child_of_kind_is_the_first(tree, node, 0, count, GDScriptNodeKind::Body);
    let found = first_child_of_kind(tree, node, 0, count, GDScriptNodeKind::Body);
    assert(tree.child_of(node, index) == block);
    assert(found == Some(index)) by {
        assert(tree.child_kind_of(node, found->0) == GDScriptNodeKind::Body);
    }
    assert(tree.child_kind_of(block, size - 1) == GDScriptNodeKind::Comment);
    assert(parent as usize == parent);
    assert(lambda_adds_comma(tree, node));
    let body = body_from(input, block, 0, false, true);
    let gap = lemma_comma_row(input, block, 0, false, start);
    let parts = lambda_from(input, node, 0);
    lemma_lambda_body_is(input, node, 0, index);
    let tail = force_break() + (if parent_is(
        tree,
        node,
        GDScriptNodeKind::ParenthesizedExpression,
    ) {
        hard_line()
    } else {
        nothing()
    });
    let inner = nothing() + parts + tail;
    lemma_row_inside(
        nothing(),
        parts,
        tail,
        child_docs(input, node, index - 1),
        soft_line() + if_single_line(space()),
        indented(1, body),
    );
    assert(node_docs(input, node) == lambda_docs(input, node));
    assert(node_docs(input, node) == grouped(inner));
}

proof fn lemma_lambda_body_is(input: ParseInput, node: int, from: int, index: int)
    requires
        input.tree_fits(),
        input.tree.has(node),
        lambda_adds_comma(*input.tree, node),
        0 <= from < index < input.tree.child_count_of(node),
        input.tree.child_kind_of(node, index) == GDScriptNodeKind::Body,
        input.tree.child_kind_of(node, index - 1) == GDScriptNodeKind::TokenColon,
    ensures
        in_a_row(
            lambda_from(input, node, from),
            child_docs(input, node, index - 1),
            soft_line() + if_single_line(space()),
            indented(1, body_from(input, input.tree.child_of(node, index), 0, false, true)),
        ),
    decreases index - from,
{
    let first = child_docs(input, node, index - 1);
    let gap = soft_line() + if_single_line(space());
    let front = front_docs(input, node, from);
    let part = part_docs(input, node, from);
    let rest = lambda_from(input, node, from + 1);
    let body = body_from(input, input.tree.child_of(node, index), 0, false, true);
    lemma_lambda_step(input, node, from);
    if from == index - 1 {
        let behind = lambda_from(input, node, index + 1);
        input.tree.lemma_child(node, index);
        lemma_lambda_step(input, node, index);
        assert(part == first);
        assert(rest == gap + indented(1, body) + behind);
        assert(front + part + rest =~= front + first + gap + indented(1, body) + behind);
        lemma_row(front, first, gap, indented(1, body), behind);
    } else {
        lemma_lambda_body_is(input, node, from + 1, index);
        lemma_row_behind(front + part, rest, first, gap, indented(1, body));
    }
}

/// A lambda with a body breaks, and in parentheses its last line ends in front of
/// the closing one.
pub proof fn lambdas_end_their_line_in_parentheses(
    input: ParseInput,
    node: int,
    index: int,
) -> (inner: Seq<Doc>)
    requires
        input.tree.kind_of(node) == GDScriptNodeKind::Lambda,
        0 <= index < input.tree.child_count_of(node),
        input.tree.child_kind_of(node, index) == GDScriptNodeKind::Body,
    ensures
        (input.tree.parent_of(node) matches Some(parent) && input.tree.kind_of(parent as int)
            == GDScriptNodeKind::ParenthesizedExpression) ==> node_docs(input, node) == grouped(
            inner + force_break() + hard_line(),
        ),
        !(input.tree.parent_of(node) matches Some(parent) && input.tree.kind_of(parent as int)
            == GDScriptNodeKind::ParenthesizedExpression) ==> node_docs(input, node) == grouped(
            inner + force_break(),
        ),
{
    let tree = *input.tree;
    let count = tree.child_count_of(node);
    let inner = lambda_from(input, node, 0);
    first_child_of_kind_is_the_first(tree, node, 0, count, GDScriptNodeKind::Body);
    assert(tree.child_of(node, index) == tree.child_of(node, index));
    assert(node_docs(input, node) == lambda_docs(input, node));
    assert(inner + force_break() + nothing() =~= inner + force_break());
    inner
}

} // verus!
