//! Layouts hold all tokens of a script.
use vstd::prelude::*;

use crate::document::{unformatted, Doc};
use crate::formatter::bodies::{
    body_docs, body_from, inline_comment_after, lambda_adds_comma, lambda_docs, lambda_from,
};
use crate::formatter::chains::{
    attribute_docs, chain_from, flat_arguments_docs, is_method_call, member_arguments_docs,
    member_docs, method_arguments_docs, method_name_docs,
};
use crate::formatter::containers::{
    container_contents, container_docs, element_docs, elements_from, is_trailing_comma,
};
use crate::formatter::nodes::{
    below_docs, child_docs, children_docs, children_from, continued_docs, function_docs, node_docs,
    parenthesized_docs, run_docs, separated_docs, setget_docs,
};
use crate::formatter::operators::{
    binary_operator_docs, chain_has_comment, chain_segments, comment_segments, conditional_docs,
    conditional_from, continues_left, level_segments, operator_docs, segments_from, Segment,
};
use crate::formatter::queries::{
    first_child_of_kind, first_child_of_kind_is_the_first, is_operator_part, operator_from,
    operator_text,
};
use crate::formatter::regions::{overlap, overlaps_a_region, Overlap};
use crate::formatter::rules::is_indented_body;
use crate::formatter::source::{
    attached_end, declaration_gap_docs, leading_block_docs, leading_start, lemma_attached_end,
    lemma_leading_block_start, newlines_before_pending, pending_docs, source_docs, source_from,
    Pending,
};
use crate::formatter::tokens::{
    doc_has_token, group_tokens, has_token, is_kept, is_laid_out, is_reached, is_token_node,
    kind_is_container, may_leave_out, reads_regions, starts_region_around,
};
use crate::node_kind::GDScriptNodeKind;
use crate::parser::ParseInput;
use crate::renderer::Element;

verus! {

broadcast use group_tokens;

/// The layout of a node holds its tokens.
pub proof fn lemma_node(input: ParseInput, node: int, token: int)
    requires
        input.tree_fits(),
        input.tree.has(node),
        is_kept(input, node, token),
    ensures
        has_token(input, node_docs(input, node), token),
    decreases input.tree.size() - node, 20int, 0int,
{
    let docs = node_docs(input, node);
    if is_token_node(input, node) {
        assert(doc_has_token(input, docs[0], token));
    } else {
        let kind = input.tree.kind_of(node);
        let index = lemma_kept_child(input, node, token);
        if copies_at_child(input, node, index, token) {
            lemma_copied(input, node, index, token);
        } else if kind_is_container(kind) {
            lemma_container(input, node, index, token);
            if kind == GDScriptNodeKind::SubscriptArguments {
                lemma_children(input, node, 0, index, token);
            }
        } else {
            match kind {
                GDScriptNodeKind::Body
                | GDScriptNodeKind::ClassBody
                | GDScriptNodeKind::MatchBody => {
                    lemma_body(input, node, index, false, token);
                },
                GDScriptNodeKind::Lambda => {
                    lemma_lambda(input, node, index, token);
                },
                GDScriptNodeKind::Function => {
                    lemma_function(input, node, index, token);
                },
                GDScriptNodeKind::SetGet => {
                    lemma_setget(input, node, index, token);
                },
                GDScriptNodeKind::ParenthesizedExpression => {
                    lemma_parenthesized(input, node, index, token);
                },
                GDScriptNodeKind::BinaryOperator => {
                    lemma_binary_operator(input, node, index, token);
                },
                GDScriptNodeKind::Condition => {
                    lemma_conditional(input, node, index, token);
                },
                GDScriptNodeKind::Attribute => {
                    lemma_attribute(input, node, index, token);
                },
                _ => {
                    lemma_children(input, node, 0, index, token);
                },
            }
        }
        assert(children_docs(input, node) == children_from(input, node, 0));
    }
}

/// True where a child of a node is laid out and kept, and the token in it.
pub open spec fn keeps_in_child(input: ParseInput, node: int, index: int, token: int) -> bool {
    &&& 0 <= index < input.tree.child_count_of(node)
    &&& !may_leave_out(input, node, index)
    &&& is_laid_out(input, node, index)
    &&& node < input.tree.child_of(node, index) < input.tree.size()
    &&& is_kept(input, input.tree.child_of(node, index), token)
}

/// True where a disabled region that a token lies in starts with a child.
pub open spec fn copies_at_child(input: ParseInput, node: int, index: int, token: int) -> bool {
    &&& 0 <= index < input.tree.child_count_of(node)
    &&& reads_regions(input, node)
    &&& is_reached(input, node, 0, index)
    &&& starts_region_around(input, node, index, token)
}

/// A token below a node is below one of its children, or in a region that is
/// copied with one of them.
pub proof fn lemma_kept_child(input: ParseInput, node: int, token: int) -> (index: int)
    requires
        is_kept(input, node, token),
        !is_token_node(input, node),
    ensures
        keeps_in_child(input, node, index, token) || copies_at_child(input, node, index, token),
{
    choose|index: int|
        #![trigger input.tree.child_of(node, index)]
        0 <= index < input.tree.child_count_of(node) && (!may_leave_out(input, node, index)
            && is_laid_out(input, node, index) && node < input.tree.child_of(node, index)
            < input.tree.size() && is_kept(input, input.tree.child_of(node, index), token)
            || reads_regions(input, node) && is_reached(input, node, 0, index)
            && starts_region_around(input, node, index, token))
}

/// A region holds the tokens in it.
proof fn lemma_region(input: ParseInput, node: int, index: int, token: int)
    requires
        starts_region_around(input, node, index, token),
    ensures
        overlap(input, node, index) matches Overlap::Covered { region, .. } ==> has_token(
            input,
            unformatted(region.start as int, region.end as int),
            token,
        ),
{
    match overlap(input, node, index) {
        Overlap::Covered { region, .. } => {
            let docs = unformatted(region.start as int, region.end as int);
            assert(doc_has_token(input, docs[0], token));
        },
        _ => {},
    }
}

proof fn lemma_copied_children(input: ParseInput, node: int, from: int, index: int, token: int)
    requires
        0 <= from <= index < input.tree.child_count_of(node),
        is_reached(input, node, from, index),
        starts_region_around(input, node, index, token),
    ensures
        has_token(input, children_from(input, node, from), token),
    decreases input.tree.children_left(node, from),
{
    if from == index {
        lemma_region(input, node, index, token);
    } else {
        lemma_reached(input, node, from, index);
        match overlap(input, node, from) {
            Overlap::Covered { region, following } => {
                lemma_copied_children(input, node, from + following + 1, index, token);
            },
            _ => {
                lemma_copied_children(input, node, from + 1, index, token);
            },
        }
    }
}

/// The layout comes to a child from one in front of it.
proof fn lemma_reached(input: ParseInput, node: int, from: int, index: int)
    requires
        is_reached(input, node, from, index),
        from < index < input.tree.child_count_of(node),
    ensures
        overlap(input, node, from) matches Overlap::Covered { following, .. } ==> from + following
            + 1 <= index && is_reached(input, node, from + following + 1, index),
        !(overlap(input, node, from) is Covered) ==> is_reached(input, node, from + 1, index),
{
    reveal_with_fuel(is_reached, 2);
}

proof fn lemma_copied_in_body(
    input: ParseInput,
    node: int,
    from: int,
    follows_inline_comment: bool,
    adds_comma: bool,
    index: int,
    token: int,
)
    requires
        0 <= from <= index < input.tree.child_count_of(node),
        is_reached(input, node, from, index),
        starts_region_around(input, node, index, token),
    ensures
        has_token(
            input,
            body_from(input, node, from, follows_inline_comment, adds_comma),
            token,
        ),
    decreases input.tree.children_left(node, from),
{
    if from == index {
        lemma_region(input, node, index, token);
    } else {
        lemma_reached(input, node, from, index);
        let inline = inline_comment_after(input, node, from, follows_inline_comment);
        match overlap(input, node, from) {
            Overlap::Covered { region, following } => {
                let next = from + following + 1;
                lemma_copied_in_body(input, node, next, false, adds_comma, index, token);
            },
            _ => {
                let next = from + 1;
                lemma_copied_in_body(input, node, next, false, adds_comma, index, token);
                lemma_copied_in_body(
                    input,
                    node,
                    next,
                    follows_inline_comment,
                    adds_comma,
                    index,
                    token,
                );
                lemma_copied_in_body(input, node, next, inline, adds_comma, index, token);
            },
        }
    }
}

/// The layout of a node holds the tokens in the regions that are copied with its
/// children.
proof fn lemma_copied(input: ParseInput, node: int, index: int, token: int)
    requires
        input.tree_fits(),
        input.tree.has(node),
        !is_token_node(input, node),
        copies_at_child(input, node, index, token),
    ensures
        has_token(input, node_docs(input, node), token),
{
    lemma_copied_children(input, node, 0, index, token);
    lemma_copied_in_body(input, node, 0, false, false, index, token);
    assert(children_docs(input, node) == children_from(input, node, 0));
    assert(has_token(input, body_docs(input, node, false), token));
    if input.tree.kind_of(node) == GDScriptNodeKind::Function {
        assert(function_docs(input, node) == children_docs(input, node));
    }
}

/// The layout of a node below another one holds its tokens.
proof fn lemma_below(input: ParseInput, ancestor: int, node: int, token: int)
    requires
        input.tree_fits(),
        0 <= ancestor < node < input.tree.size(),
        is_kept(input, node, token),
    ensures
        has_token(input, below_docs(input, ancestor, node), token),
    decreases input.tree.size() - ancestor, 0int, 0int,
{
    lemma_node(input, node, token);
}

/// The layout of a child holds its tokens.
proof fn lemma_child(input: ParseInput, node: int, index: int, token: int)
    requires
        input.tree_fits(),
        input.tree.has(node),
        keeps_in_child(input, node, index, token),
    ensures
        has_token(input, child_docs(input, node, index), token),
    decreases input.tree.size() - node, 1int, 0int,
{
    lemma_below(input, node, input.tree.child_of(node, index), token);
    assert(child_docs(input, node, index) == below_docs(
        input,
        node,
        input.tree.child_of(node, index),
    ));
}

proof fn lemma_separated(
    input: ParseInput,
    node: int,
    parent: GDScriptNodeKind,
    from: int,
    to: int,
    index: int,
    token: int,
)
    requires
        input.tree_fits(),
        input.tree.has(node),
        from <= index < to,
        keeps_in_child(input, node, index, token),
    ensures
        has_token(input, separated_docs(input, node, parent, from, to), token),
    decreases input.tree.size() - node, 10int, to - from,
{
    if from == index {
        lemma_child(input, node, index, token);
    } else {
        lemma_separated(input, node, parent, from + 1, to, index, token);
    }
}

proof fn lemma_run(
    input: ParseInput,
    node: int,
    parent: GDScriptNodeKind,
    from: int,
    to: int,
    index: int,
    token: int,
)
    requires
        input.tree_fits(),
        input.tree.has(node),
        from <= index < to,
        keeps_in_child(input, node, index, token),
    ensures
        has_token(input, run_docs(input, node, parent, from, to), token),
    decreases input.tree.size() - node, 11int, 0int,
{
    if from == index {
        lemma_child(input, node, index, token);
    } else {
        lemma_separated(input, node, parent, from + 1, to, index, token);
    }
}

proof fn lemma_continued(input: ParseInput, node: int, index: int, token: int)
    requires
        input.tree_fits(),
        input.tree.has(node),
        keeps_in_child(input, node, index, token),
    ensures
        has_token(input, continued_docs(input, node, index), token),
    decreases input.tree.size() - node, 2int, 0int,
{
    lemma_child(input, node, index, token);
    let child = input.tree.child_of(node, index);
    let start = input.tree.start_of(child);
    let docs = continued_docs(input, node, index);
    if index > 0 && input.tree.child_kind_of(node, index - 1)
        == GDScriptNodeKind::LineContinuation {
    } else if input.tree.kind_of(child) == GDScriptNodeKind::LineContinuation {
        assert(input.tree.child_count_of(child) == 0);
        assert(is_token_node(input, child));
        assert(child == token);
        assert(docs[0] == Doc::Leaf(Element::Text { start, end: start + 1 }));
        assert(doc_has_token(input, docs[0], token));
    }
}

pub proof fn lemma_children(input: ParseInput, node: int, from: int, index: int, token: int)
    requires
        input.tree_fits(),
        input.tree.has(node),
        0 <= from <= index,
        is_reached(input, node, from, index),
        !(overlap(input, node, index) is Covered),
        keeps_in_child(input, node, index, token),
    ensures
        has_token(input, children_from(input, node, from), token),
    decreases input.tree.size() - node, 10int, input.tree.children_left(node, from),
{
    if from == index {
        lemma_child(input, node, index, token);
        lemma_continued(input, node, index, token);
    } else {
        lemma_reached(input, node, from, index);
        match overlap(input, node, from) {
            Overlap::Covered { region, following } => {
                lemma_children(input, node, from + following + 1, index, token);
            },
            _ => {
                lemma_children(input, node, from + 1, index, token);
            },
        }
    }
}

proof fn lemma_function(input: ParseInput, node: int, index: int, token: int)
    requires
        input.tree_fits(),
        input.tree.has(node),
        input.tree.kind_of(node) == GDScriptNodeKind::Function,
        keeps_in_child(input, node, index, token),
    ensures
        has_token(input, function_docs(input, node), token),
    decreases input.tree.size() - node, 15int, 0int,
{
    let count = input.tree.child_count_of(node);
    if overlaps_a_region(input, node) {
        lemma_children(input, node, 0, index, token);
        assert(children_docs(input, node) == children_from(input, node, 0));
    }
    first_child_of_kind_is_the_first(*input.tree, node, 0, count, GDScriptNodeKind::Body);
    match first_child_of_kind(*input.tree, node, 0, count, GDScriptNodeKind::Body) {
        None => {
            lemma_run(input, node, GDScriptNodeKind::Function, 0, count, index, token);
        },
        Some(body) => {
            assert(input.tree.child_of(node, body) == input.tree.child_of(node, body));
            if index < body {
                lemma_run(input, node, GDScriptNodeKind::Function, 0, body, index, token);
            } else {
                lemma_child(input, node, index, token);
            }
        },
    }
}

proof fn lemma_setget(input: ParseInput, node: int, index: int, token: int)
    requires
        input.tree_fits(),
        input.tree.has(node),
        keeps_in_child(input, node, index, token),
    ensures
        has_token(input, setget_docs(input, node), token),
    decreases input.tree.size() - node, 15int, 0int,
{
    if index == 0 {
        lemma_child(input, node, 0, token);
    } else {
        let count = input.tree.child_count_of(node);
        lemma_run(input, node, GDScriptNodeKind::SetGet, 1, count, index, token);
    }
}

proof fn lemma_parenthesized(input: ParseInput, node: int, index: int, token: int)
    requires
        input.tree_fits(),
        input.tree.has(node),
        input.tree.kind_of(node) == GDScriptNodeKind::ParenthesizedExpression,
        keeps_in_child(input, node, index, token),
    ensures
        has_token(input, parenthesized_docs(input, node), token),
    decreases input.tree.size() - node, 15int, 0int,
{
    let count = input.tree.child_count_of(node);
    lemma_children(input, node, 0, index, token);
    assert(children_docs(input, node) == children_from(input, node, 0));
    lemma_child(input, node, index, token);
    if 0 < index < count - 1 {
        lemma_run(
            input,
            node,
            GDScriptNodeKind::ParenthesizedExpression,
            1,
            count - 1,
            index,
            token,
        );
    }
}

proof fn lemma_body_from(
    input: ParseInput,
    node: int,
    from: int,
    follows_inline_comment: bool,
    adds_comma: bool,
    index: int,
    token: int,
)
    requires
        input.tree_fits(),
        input.tree.has(node),
        0 <= from <= index,
        is_reached(input, node, from, index),
        !(overlap(input, node, index) is Covered),
        input.tree.child_kind_of(node, index) != GDScriptNodeKind::SemiColon,
        keeps_in_child(input, node, index, token),
    ensures
        has_token(
            input,
            body_from(input, node, from, follows_inline_comment, adds_comma),
            token,
        ),
    decreases input.tree.size() - node, 10int, input.tree.children_left(node, from),
{
    if from == index {
        lemma_child(input, node, index, token);
    } else {
        lemma_reached(input, node, from, index);
        let inline = inline_comment_after(input, node, from, follows_inline_comment);
        match overlap(input, node, from) {
            Overlap::Covered { region, following } => {
                let next = from + following + 1;
                lemma_body_from(input, node, next, false, adds_comma, index, token);
            },
            _ => {
                let next = from + 1;
                lemma_body_from(input, node, next, false, adds_comma, index, token);
                lemma_body_from(
                    input,
                    node,
                    next,
                    follows_inline_comment,
                    adds_comma,
                    index,
                    token,
                );
                lemma_body_from(input, node, next, inline, adds_comma, index, token);
            },
        }
    }
}

proof fn lemma_body(input: ParseInput, node: int, index: int, adds_comma: bool, token: int)
    requires
        input.tree_fits(),
        input.tree.has(node),
        input.tree.child_kind_of(node, index) != GDScriptNodeKind::SemiColon,
        is_indented_body(input.tree.kind_of(node)),
        keeps_in_child(input, node, index, token),
    ensures
        has_token(input, body_docs(input, node, adds_comma), token),
    decreases input.tree.size() - node, 15int, 0int,
{
    lemma_body_from(input, node, 0, false, adds_comma, index, token);
}

proof fn lemma_lambda_from(input: ParseInput, node: int, from: int, index: int, token: int)
    requires
        input.tree_fits(),
        input.tree.has(node),
        input.tree.kind_of(node) == GDScriptNodeKind::Lambda,
        0 <= from <= index,
        keeps_in_child(input, node, index, token),
    ensures
        has_token(input, lambda_from(input, node, from), token),
    decreases input.tree.size() - node, 10int, input.tree.children_left(node, from),
{
    if from == index {
        let child = input.tree.child_of(node, index);
        lemma_child(input, node, index, token);
        if input.tree.kind_of(child) == GDScriptNodeKind::Body && lambda_adds_comma(
            *input.tree,
            node,
        ) {
            let statement = lemma_kept_child(input, child, token);
            if copies_at_child(input, child, statement, token) {
                lemma_copied_in_body(input, child, 0, false, true, statement, token);
                assert(has_token(input, body_docs(input, child, true), token));
            } else {
                lemma_body(input, child, statement, true, token);
            }
        }
    } else {
        lemma_lambda_from(input, node, from + 1, index, token);
    }
}

proof fn lemma_lambda(input: ParseInput, node: int, index: int, token: int)
    requires
        input.tree_fits(),
        input.tree.has(node),
        input.tree.kind_of(node) == GDScriptNodeKind::Lambda,
        keeps_in_child(input, node, index, token),
    ensures
        has_token(input, lambda_docs(input, node), token),
    decreases input.tree.size() - node, 15int, 0int,
{
    lemma_lambda_from(input, node, 0, index, token);
}

proof fn lemma_elements(input: ParseInput, node: int, from: int, index: int, token: int)
    requires
        input.tree_fits(),
        input.tree.has(node),
        1 <= from <= index < input.tree.child_count_of(node) - 1,
        !is_trailing_comma(input, node, index),
        keeps_in_child(input, node, index, token),
    ensures
        has_token(input, elements_from(input, node, from), token),
    decreases input.tree.size() - node, 10int, input.tree.children_left(node, from),
{
    if from == index {
        lemma_child(input, node, index, token);
        assert(has_token(input, element_docs(input, node, index), token));
    } else {
        lemma_elements(input, node, from + 1, index, token);
    }
}

proof fn lemma_container(input: ParseInput, node: int, index: int, token: int)
    requires
        input.tree_fits(),
        input.tree.has(node),
        !is_trailing_comma(input, node, index),
        keeps_in_child(input, node, index, token),
    ensures
        has_token(input, container_docs(input, node), token),
    decreases input.tree.size() - node, 15int, 0int,
{
    lemma_child(input, node, index, token);
    if input.tree.child_count_of(node) >= 3 {
        if 0 < index < input.tree.child_count_of(node) - 1 {
            lemma_elements(input, node, 1, index, token);
        }
        assert(has_token(input, container_contents(input, node), token));
    }
}

proof fn lemma_conditional_from(input: ParseInput, node: int, from: int, index: int, token: int)
    requires
        input.tree_fits(),
        input.tree.has(node),
        0 <= from <= index,
        keeps_in_child(input, node, index, token),
    ensures
        has_token(input, conditional_from(input, node, from), token),
    decreases input.tree.size() - node, 10int, input.tree.children_left(node, from),
{
    if from == index {
        lemma_continued(input, node, index, token);
    } else {
        lemma_conditional_from(input, node, from + 1, index, token);
    }
}

proof fn lemma_conditional(input: ParseInput, node: int, index: int, token: int)
    requires
        input.tree_fits(),
        input.tree.has(node),
        input.tree.kind_of(node) == GDScriptNodeKind::Condition,
        keeps_in_child(input, node, index, token),
    ensures
        has_token(input, conditional_docs(input, node), token),
    decreases input.tree.size() - node, 15int, 0int,
{
    lemma_children(input, node, 0, index, token);
    assert(children_docs(input, node) == children_from(input, node, 0));
    lemma_conditional_from(input, node, 0, index, token);
}

/// True of a part of a chain, below `node`, that a token is kept in.
pub open spec fn keeps_in_segment(
    input: ParseInput,
    node: int,
    segment: Segment,
    token: int,
) -> bool {
    ||| node < segment.expression < input.tree.size() && is_kept(input, segment.expression, token)
    ||| segment.operated_by matches Some(operated_by) && keeps_in_some_part(
        input,
        node,
        operated_by,
        token,
    )
}

/// True of an operator, below `ancestor`, that a token is kept in.
pub open spec fn keeps_in_some_part(
    input: ParseInput,
    ancestor: int,
    node: int,
    token: int,
) -> bool {
    exists|index: int| #[trigger] keeps_in_operator(input, ancestor, node, index, token)
}

/// True of a part of an operator, below `ancestor`, that a token is kept in.
pub open spec fn keeps_in_operator(
    input: ParseInput,
    ancestor: int,
    node: int,
    index: int,
    token: int,
) -> bool {
    &&& 0 <= index < input.tree.child_count_of(node)
    &&& is_operator_part(*input.tree, node, index)
    &&& ancestor < input.tree.child_of(node, index) < input.tree.size()
    &&& is_kept(input, input.tree.child_of(node, index), token)
}

proof fn lemma_operator(
    input: ParseInput,
    ancestor: int,
    node: int,
    from: int,
    has_part: bool,
    index: int,
    token: int,
)
    requires
        input.tree_fits(),
        input.tree.has(ancestor),
        0 <= from <= index,
        keeps_in_operator(input, ancestor, node, index, token),
    ensures
        has_token(input, operator_docs(input, ancestor, node, from, has_part), token),
    decreases input.tree.size() - ancestor, 8int, input.tree.child_count_of(node) - from,
{
    if from == index {
        lemma_below(input, ancestor, input.tree.child_of(node, index), token);
    } else {
        lemma_operator(input, ancestor, node, from + 1, true, index, token);
        lemma_operator(input, ancestor, node, from + 1, has_part, index, token);
    }
}

proof fn lemma_segments(
    input: ParseInput,
    node: int,
    segments: Seq<Segment>,
    from: int,
    has_comment: bool,
    index: int,
    token: int,
)
    requires
        input.tree_fits(),
        input.tree.has(node),
        0 <= from <= index < segments.len(),
        keeps_in_segment(input, node, segments[index], token),
    ensures
        has_token(input, segments_from(input, node, segments, from, has_comment), token),
    decreases input.tree.size() - node, 10int, segments.len() - from,
{
    if from == index {
        let segment = segments[index];
        if node < segment.expression < input.tree.size() && is_kept(
            input,
            segment.expression,
            token,
        ) {
            lemma_below(input, node, segment.expression, token);
        } else {
            let operated_by = segment.operated_by.unwrap();
            let part = choose|part: int|
                #[trigger] keeps_in_operator(input, node, operated_by, part, token);
            lemma_operator(input, node, operated_by, 0, false, part, token);
        }
    } else {
        lemma_segments(input, node, segments, from + 1, has_comment, index, token);
    }
}

/// A comment of a binary expression is one of its segments.
proof fn lemma_comment_segment(input: ParseInput, node: int, from: int, index: int)
    requires
        0 <= from <= index < input.tree.child_count_of(node),
        input.tree.child_kind_of(node, index) == GDScriptNodeKind::Comment,
    ensures
        exists|i: int|
            0 <= i < comment_segments(*input.tree, node, from).len() && (
            #[trigger] comment_segments(*input.tree, node, from)[i]).expression
                == input.tree.child_of(node, index),
    decreases index - from,
{
    let segments = comment_segments(*input.tree, node, from);
    if from == index {
        assert(segments[0].expression == input.tree.child_of(node, index));
    } else {
        lemma_comment_segment(input, node, from + 1, index);
        let rest = comment_segments(*input.tree, node, from + 1);
        let i = choose|i: int|
            0 <= i < rest.len() && (#[trigger] rest[i]).expression == input.tree.child_of(
                node,
                index,
            );
        if input.tree.child_kind_of(node, from) == GDScriptNodeKind::Comment {
            assert(segments[i + 1] == rest[i]);
        } else {
            assert(segments[i] == rest[i]);
        }
    }
}

/// A part of an operator makes for an operator.
proof fn lemma_operator_exists(input: ParseInput, node: int, from: int, index: int)
    requires
        0 <= from <= index < input.tree.child_count_of(node),
        is_operator_part(*input.tree, node, index),
    ensures
        operator_from(*input.tree, node, from) is Some,
    decreases index - from,
{
    if from < index {
        lemma_operator_exists(input, node, from + 1, index);
    }
}

/// What is kept in a binary expression of a chain is kept in a part of the
/// chain.
proof fn lemma_chain_keeps(
    input: ParseInput,
    root: int,
    node: int,
    operator: Seq<u8>,
    index: int,
    token: int,
) -> (segment: int)
    requires
        input.tree_fits(),
        0 <= root <= node < input.tree.size(),
        input.tree.kind_of(node) == GDScriptNodeKind::BinaryOperator,
        keeps_in_child(input, node, index, token),
    ensures
        0 <= segment < chain_segments(input, node, operator).len(),
        keeps_in_segment(input, root, chain_segments(input, node, operator)[segment], token),
    decreases input.tree.size() - node,
{
    let tree = *input.tree;
    let child = tree.child_of(node, index);
    let segments = chain_segments(input, node, operator);
    let level = level_segments(tree, node);
    let start = segments.len() - level.len();
    let comments = comment_segments(tree, node, 0);
    assert(start >= 0);
    assert forall|i: int| 0 <= i < level.len() implies segments[start + i] == level[i] by {}
    if tree.left_of(node) == Some(child as usize) && (tree.kind_of(child)
        == GDScriptNodeKind::BinaryOperator ==> tree.child_count_of(child) > 0) {
        if continues_left(input, node, operator) {
            let inner = lemma_kept_child(input, child, token);
            let segment = lemma_chain_keeps(input, root, child, operator, inner, token);
            assert(segments[segment] == chain_segments(input, child, operator)[segment]);
            segment
        } else {
            assert(segments[0].expression == child);
            assert(keeps_in_segment(input, root, segments[0], token));
            0
        }
    } else if tree.kind_of(child) == GDScriptNodeKind::Comment {
        lemma_comment_segment(input, node, 0, index);
        let i = choose|i: int|
            0 <= i < comments.len() && (#[trigger] comments[i]).expression == child;
        assert(level[i] == comments[i]);
        assert(segments[start + i] == level[i]);
        assert(keeps_in_segment(input, root, segments[start + i], token));
        start + i
    } else {
        let last = level.len() - 1;
        assert(tree.right_of(node) is Some);
        assert(level[last].expression == tree.right_of(node).unwrap());
        assert(segments[start + last] == level[last]);
        if tree.right_of(node) != Some(child as usize) {
            lemma_operator_exists(input, node, 0, index);
            assert(level[last].operated_by == Some(node));
            assert(keeps_in_operator(input, root, node, index, token));
            assert(keeps_in_some_part(input, root, node, token));
        }
        start + last
    }
}

proof fn lemma_binary_operator(input: ParseInput, node: int, index: int, token: int)
    requires
        input.tree_fits(),
        input.tree.has(node),
        input.tree.kind_of(node) == GDScriptNodeKind::BinaryOperator,
        keeps_in_child(input, node, index, token),
    ensures
        has_token(input, binary_operator_docs(input, node), token),
    decreases input.tree.size() - node, 15int, 0int,
{
    let operator = operator_text(input, node);
    lemma_children(input, node, 0, index, token);
    assert(children_docs(input, node) == children_from(input, node, 0));
    let segment = lemma_chain_keeps(input, node, node, operator, index, token);
    lemma_segments(
        input,
        node,
        chain_segments(input, node, operator),
        0,
        chain_has_comment(input, node, operator),
        segment,
        token,
    );
}

proof fn lemma_flat_arguments(input: ParseInput, arguments: int, index: int, token: int)
    requires
        input.tree_fits(),
        input.tree.has(arguments),
        input.tree.child_count_of(arguments) >= 2,
        !is_trailing_comma(input, arguments, index),
        keeps_in_child(input, arguments, index, token),
    ensures
        has_token(input, flat_arguments_docs(input, arguments), token),
    decreases input.tree.size() - arguments, 15int, 0int,
{
    let count = input.tree.child_count_of(arguments);
    let kind = input.tree.kind_of(arguments);
    let end = if count >= 3 && input.tree.child_kind_of(arguments, count - 2)
        == GDScriptNodeKind::TokenComma {
        count - 2
    } else {
        count - 1
    };
    lemma_child(input, arguments, index, token);
    if 0 < index < end {
        lemma_separated(input, arguments, kind, 1, end, index, token);
    }
}

proof fn lemma_member(input: ParseInput, node: int, index: int, token: int)
    requires
        input.tree_fits(),
        input.tree.has(node),
        input.tree.kind_of(node) == GDScriptNodeKind::Attribute,
        keeps_in_child(input, node, index, token),
    ensures
        has_token(input, member_docs(input, node, index), token) || has_token(
            input,
            member_arguments_docs(input, node, index),
            token,
        ),
    decreases input.tree.size() - node, 3int, 0int,
{
    let child = input.tree.child_of(node, index);
    if is_method_call(input, node, index) {
        let part = lemma_kept_child(input, child, token);
        if part == 0 {
            lemma_child(input, child, 0, token);
            assert(has_token(input, method_name_docs(input, child), token));
        } else {
            let arguments = input.tree.child_of(child, 1);
            lemma_node(input, arguments, token);
            let argument = lemma_kept_child(input, arguments, token);
            lemma_flat_arguments(input, arguments, argument, token);
            assert(has_token(
                input,
                method_arguments_docs(
                    input,
                    child,
                    index + 1 >= input.tree.child_count_of(node),
                ),
                token,
            ));
        }
    } else {
        lemma_child(input, node, index, token);
    }
}

proof fn lemma_chain(
    input: ParseInput,
    node: int,
    from: int,
    is_implicit: bool,
    is_explicit: bool,
    index: int,
    token: int,
)
    requires
        input.tree_fits(),
        input.tree.has(node),
        input.tree.kind_of(node) == GDScriptNodeKind::Attribute,
        0 <= from <= index,
        keeps_in_child(input, node, index, token),
    ensures
        has_token(input, chain_from(input, node, from, is_implicit, is_explicit), token),
    decreases input.tree.size() - node, 10int, input.tree.children_left(node, from),
{
    lemma_child(input, node, index, token);
    lemma_member(input, node, index, token);
    if input.tree.child_kind_of(node, from) == GDScriptNodeKind::LineContinuation {
        if index >= from + 3 {
            lemma_chain(input, node, from + 3, is_implicit, is_explicit, index, token);
        }
    } else if index >= from + 2 {
        lemma_chain(input, node, from + 2, is_implicit, is_explicit, index, token);
    }
}

proof fn lemma_attribute(input: ParseInput, node: int, index: int, token: int)
    requires
        input.tree_fits(),
        input.tree.has(node),
        input.tree.kind_of(node) == GDScriptNodeKind::Attribute,
        keeps_in_child(input, node, index, token),
    ensures
        has_token(input, attribute_docs(input, node), token),
    decreases input.tree.size() - node, 15int, 0int,
{
    lemma_children(input, node, 0, index, token);
    assert(children_docs(input, node) == children_from(input, node, 0));
    if index == 0 {
        lemma_child(input, node, 0, token);
    } else {
        lemma_chain(input, node, 1, true, true, index, token);
        lemma_chain(input, node, 1, true, false, index, token);
        lemma_chain(input, node, 1, false, true, index, token);
        lemma_chain(input, node, 1, false, false, index, token);
    }
}

/// True of a pending node that a token is kept in.
pub open spec fn keeps_in_pending(
    input: ParseInput,
    pending: Seq<Pending>,
    index: int,
    token: int,
) -> bool {
    0 <= index < pending.len() && input.tree.has(pending[index].node) && is_kept(
        input,
        pending[index].node,
        token,
    )
}

proof fn lemma_pending(
    input: ParseInput,
    pending: Seq<Pending>,
    from: int,
    to: int,
    separates_first: bool,
    index: int,
    token: int,
)
    requires
        input.tree_fits(),
        from <= index < to,
        keeps_in_pending(input, pending, index, token),
    ensures
        has_token(input, pending_docs(input, pending, from, to, separates_first), token),
    decreases to - from,
{
    if from == index {
        lemma_node(input, pending[index].node, token);
    } else {
        lemma_pending(input, pending, from + 1, to, true, index, token);
    }
}

/// Everything that was pending is written in front of a declaration.
proof fn lemma_declaration_gap(
    input: ParseInput,
    pending: Seq<Pending>,
    previous: Option<int>,
    declaration: int,
    index: int,
    token: int,
)
    requires
        input.tree_fits(),
        keeps_in_pending(input, pending, index, token),
    ensures
        has_token(input, declaration_gap_docs(input, pending, previous, declaration), token),
{
    reveal(declaration_gap_docs);
    let count = pending.len() as int;
    let leading = leading_start(input, pending, previous, declaration);
    let attached = attached_end(pending, 0, leading, previous is Some);
    lemma_leading_block_start(input, pending, count);
    lemma_attached_end(pending, 0, leading, previous is Some);
    if index < attached {
        lemma_pending(input, pending, 0, attached, previous is Some, index, token);
    } else if index < leading {
        lemma_pending(input, pending, attached, leading, false, index, token);
    } else {
        lemma_pending(input, pending, leading, count, false, index, token);
        assert(has_token(
            input,
            leading_block_docs(input, pending, previous, declaration, false),
            token,
        ));
        assert(has_token(
            input,
            leading_block_docs(input, pending, previous, declaration, true),
            token,
        ));
    }
}

/// True of a declaration on the top level that a token is kept in, or with which
/// a region starts that it lies in, where the layout comes to `from`.
pub open spec fn keeps_on_top_level(
    input: ParseInput,
    from: int,
    index: int,
    token: int,
) -> bool {
    &&& 0 <= from <= index < input.tree.child_count_of(0)
    &&& is_reached(input, 0, from, index)
    &&& if overlap(input, 0, index) is Covered {
        starts_region_around(input, 0, index, token)
    } else {
        input.tree.child_kind_of(0, index) != GDScriptNodeKind::SemiColon && is_kept(
            input,
            input.tree.child_of(0, index),
            token,
        )
    }
}

/// What is pending, and what follows, is written.
proof fn lemma_source_from(
    input: ParseInput,
    from: int,
    previous: Option<int>,
    pending: Seq<Pending>,
    index: int,
    is_pending: bool,
    token: int,
)
    requires
        input.tree_fits(),
        0 <= from,
        if is_pending {
            keeps_in_pending(input, pending, index, token)
        } else {
            keeps_on_top_level(input, from, index, token)
        },
    ensures
        has_token(input, source_from(input, from, previous, pending), token),
    decreases input.tree.children_left(0, from), 1int,
{
    reveal(source_from);
    if from >= input.tree.child_count_of(0) {
        let count = pending.len() as int;
        lemma_pending(input, pending, 0, count, previous is Some, index, token);
    } else {
        let child = input.tree.child_of(0, from);
        let kind = input.tree.kind_of(child);
        input.tree.lemma_child(0, from);
        if !is_pending && from < index {
            lemma_reached(input, 0, from, index);
        }
        match overlap(input, 0, from) {
            Overlap::Covered { region, following } => {
                let next = from + following + 1;
                let last = Some(input.tree.child_of(0, from + following));
                if is_pending {
                    lemma_declaration_gap(input, pending, previous, child, index, token);
                    lemma_source_from(input, next, last, pending, index, true, token);
                } else if index == from {
                    lemma_region(input, 0, index, token);
                } else {
                    lemma_source_from(input, next, last, Seq::empty(), index, false, token);
                    lemma_source_from(input, next, last, pending, index, false, token);
                }
            },
            Overlap::Partial => {
                if !is_pending && index == from {
                    lemma_node(input, child, token);
                } else {
                    lemma_source_from(
                        input,
                        from + 1,
                        Some(child),
                        pending,
                        index,
                        is_pending,
                        token,
                    );
                }
            },
            Overlap::Clear => {
                lemma_source_step(input, from, previous, pending, index, is_pending, token);
            },
        }
    }
}

/// What is pending, and what follows, is written where no region covers the
/// next declaration.
proof fn lemma_source_step(
    input: ParseInput,
    from: int,
    previous: Option<int>,
    pending: Seq<Pending>,
    index: int,
    is_pending: bool,
    token: int,
)
    requires
        input.tree_fits(),
        0 <= from < input.tree.child_count_of(0),
        overlap(input, 0, from) is Clear,
        if is_pending {
            keeps_in_pending(input, pending, index, token)
        } else {
            keeps_on_top_level(input, from, index, token)
        },
    ensures
        has_token(input, source_from(input, from, previous, pending), token),
    decreases input.tree.children_left(0, from), 0int,
{
    reveal(source_from);
    let child = input.tree.child_of(0, from);
    let kind = input.tree.kind_of(child);
    input.tree.lemma_child(0, from);
    if !is_pending && from < index {
        lemma_reached(input, 0, from, index);
    }
    if kind == GDScriptNodeKind::SemiColon {
        lemma_source_from(input, from + 1, Some(child), pending, index, is_pending, token);
    } else if kind == GDScriptNodeKind::Comment || kind == GDScriptNodeKind::Annotation {
        let waiting = pending.push(
            Pending {
                node: child,
                newlines: newlines_before_pending(input, pending, previous, child),
            },
        );
        if is_pending {
            assert(waiting[index] == pending[index]);
            lemma_source_from(input, from + 1, previous, waiting, index, true, token);
        } else if index == from {
            let last = pending.len() as int;
            assert(waiting[last].node == child);
            lemma_source_from(input, from + 1, previous, waiting, last, true, token);
        } else {
            lemma_source_from(input, from + 1, previous, waiting, index, false, token);
        }
    } else if is_pending {
        lemma_declaration_gap(input, pending, previous, child, index, token);
    } else if index == from {
        lemma_node(input, child, token);
    } else {
        lemma_source_from(
            input,
            from + 1,
            Some(child),
            Seq::empty(),
            index,
            false,
            token,
        );
    }
}

/// No token of a script gets lost: its layout holds every one of them, by itself
/// or in a range of the source that is copied as it is, but for the semicolons
/// between declarations, what `may_leave_out` names, which are the semicolons
/// between statements and trailing commas, and what a disabled region covers
/// that is not copied, because it starts in a node that does not look for
/// regions. This is about scripts that stay in order.
pub proof fn layout_holds_all_tokens(input: ParseInput, index: int, token: int)
    requires
        input.wf(),
        !input.follows_plan(),
        keeps_on_top_level(input, 0, index, token),
    ensures
        has_token(input, source_docs(input), token),
{
    lemma_source_from(input, 0, None, Seq::empty(), index, false, token);
}

} // verus!
