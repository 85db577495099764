//! How chains of calls are laid out.
use vstd::prelude::*;

use crate::document::{
    fixed, group_concat, grouped, grouped_until_first_line_break, if_multiline, indented, nothing,
    soft_line, space, Doc,
};
use crate::formatter::chains::{
    attribute_docs, chain_from, flat_arguments_docs, member_arguments_docs, member_docs,
};
use crate::formatter::line_breaks::{is_between_delimiters, lemma_searches};
use crate::formatter::nodes::{child_docs, node_docs};
use crate::formatter::queries::{
    allows_implicit_continuation, first_child_of_kind, first_child_of_kind_is_the_first,
};
use crate::formatter::rows::{in_a_row, lemma_row_at_front, lemma_row_behind};
use crate::node_kind::GDScriptNodeKind;
use crate::parser::ParseInput;
use crate::formatter::expressions::{has_none, lemma_none};

verus! {

/// What stands behind a dot: a name, which for a call is its first child.
pub open spec fn name_docs(input: ParseInput, node: int, index: int) -> Seq<Doc> {
    let child = input.tree.child_of(node, index);
    if input.tree.kind_of(child) == GDScriptNodeKind::AttributeCall {
        if input.tree.child_count_of(child) > 0 {
            child_docs(input, child, 0)
        } else {
            nothing()
        }
    } else {
        child_docs(input, node, index)
    }
}

/// What stands for a dot of a chain and the name behind it, where the chain
/// breaks: a line break in front of the dot, and, where that is what continues
/// the line, a backslash in front of the line break and an indent around all of
/// it.
#[verifier::opaque]
pub open spec fn link_docs(input: ParseInput, node: int, index: int, needs_backslash: bool) -> Seq<
    Doc,
> {
    let link = soft_line() + child_docs(input, node, index) + name_docs(input, node, index + 1);
    if needs_backslash {
        indented(
            input.continuation_indent_level as int,
            if_multiline(space() + fixed("\\"@)) + link,
        )
    } else {
        link
    }
}

/// A chain is laid out link by link.
proof fn lemma_chain_step(input: ParseInput, node: int, index: int, is_implicit: bool)
    requires
        input.tree_fits(),
        input.tree.has(node),
        0 <= index,
        index + 1 < input.tree.child_count_of(node),
        input.tree.child_kind_of(node, index) != GDScriptNodeKind::LineContinuation,
    ensures
        chain_from(input, node, index, is_implicit, false) == link_docs(
            input,
            node,
            index,
            !is_implicit,
        ) + (member_arguments_docs(input, node, index + 1) + chain_from(
            input,
            node,
            index + 2,
            is_implicit,
            false,
        )),
{
    broadcast use group_concat;

    reveal(link_docs);
    input.tree.lemma_child(node, index + 1);
    assert(member_docs(input, node, index + 1) == name_docs(input, node, index + 1));
}

proof fn lemma_chain_link(
    input: ParseInput,
    node: int,
    from: int,
    is_implicit: bool,
    links: int,
)
    requires
        input.tree_fits(),
        input.tree.has(node),
        has_none(*input.tree, node, GDScriptNodeKind::LineContinuation),
        0 <= from,
        0 <= links,
        from + 2 * links + 1 < input.tree.child_count_of(node),
    ensures
        in_a_row(
            chain_from(input, node, from, is_implicit, false),
            nothing(),
            link_docs(input, node, from + 2 * links, !is_implicit),
            nothing(),
        ),
    decreases links,
{
    let link = link_docs(input, node, from, !is_implicit);
    let arguments = member_arguments_docs(input, node, from + 1);
    let rest = chain_from(input, node, from + 2, is_implicit, false);
    assert(input.tree.child_of(node, from) == input.tree.child_of(node, from));
    lemma_chain_step(input, node, from, is_implicit);
    if links == 0 {
        lemma_row_at_front(link, arguments + rest);
    } else {
        lemma_chain_link(input, node, from + 2, is_implicit, links - 1);
        let found = link_docs(input, node, from + 2 * links, !is_implicit);
        lemma_row_behind(arguments, rest, nothing(), found, nothing());
        lemma_row_behind(link, arguments + rest, nothing(), found, nothing());
    }
}

/// A chain of at least two dots breaks in front of every one of them or nowhere:
/// it is a group that starts with its first part, and in which a possible line
/// break stands in front of every dot. Outside of delimiters, a backslash stands
/// in front of each of these line breaks, and what follows is indented as the
/// options ask for.
pub proof fn chains_of_calls_break_in_front_of_dots(input: ParseInput, node: int, index: int)
    requires
        input.tree_fits(),
        input.tree.has(node),
        input.tree.kind_of(node) == GDScriptNodeKind::Attribute,
        input.tree.child_count_of(node) >= 5,
        input.tree.child_kind_of(node, 1) == GDScriptNodeKind::TokenDot,
        has_none(*input.tree, node, GDScriptNodeKind::LineContinuation),
        0 < index,
        index % 2 == 1,
        index + 1 < input.tree.child_count_of(node),
    ensures
        exists|chain: Seq<Doc>, needs_backslash: bool|
            node_docs(input, node) == grouped(child_docs(input, node, 0) + chain)
                && #[trigger] in_a_row(
                chain,
                nothing(),
                link_docs(input, node, index, needs_backslash),
                nothing(),
            ) && (!is_between_delimiters(*input.tree, node) ==> needs_backslash),
{
    let is_implicit = allows_implicit_continuation(*input.tree, node);
    let chain = chain_from(input, node, 1, is_implicit, false);
    lemma_searches(*input.tree, node);
    lemma_none(*input.tree, node, 1, GDScriptNodeKind::LineContinuation);
    lemma_chain_link(input, node, 1, is_implicit, (index - 1) / 2);
    assert(1 + 2 * ((index - 1) / 2) == index);
    assert(node_docs(input, node) == attribute_docs(input, node));
    assert(node_docs(input, node) == grouped(child_docs(input, node, 0) + chain));
    let needs_backslash = !is_implicit;
    assert(in_a_row(
        chain,
        nothing(),
        link_docs(input, node, index, needs_backslash),
        nothing(),
    ));
}

/// Directly between delimiters, a chain of calls needs no backslashes.
pub proof fn chains_between_delimiters_need_no_backslash(
    input: ParseInput,
    node: int,
    parent: int,
    index: int,
)
    requires
        input.tree_fits(),
        input.tree.has(node),
        input.tree.kind_of(node) == GDScriptNodeKind::Attribute,
        input.tree.child_count_of(node) >= 5,
        input.tree.child_kind_of(node, 1) == GDScriptNodeKind::TokenDot,
        has_none(*input.tree, node, GDScriptNodeKind::LineContinuation),
        input.tree.parent_of(node) == Some(parent as usize),
        0 <= parent < node,
        matches!(
            input.tree.kind_of(parent),
            GDScriptNodeKind::Array
                | GDScriptNodeKind::Dictionary
                | GDScriptNodeKind::Arguments
                | GDScriptNodeKind::SubscriptArguments
                | GDScriptNodeKind::ParenthesizedExpression
        ),
        0 < index,
        index % 2 == 1,
        index + 1 < input.tree.child_count_of(node),
    ensures
        exists|chain: Seq<Doc>|
            node_docs(input, node) == grouped(child_docs(input, node, 0) + chain)
                && #[trigger] in_a_row(
                chain,
                nothing(),
                link_docs(input, node, index, false),
                nothing(),
            ),
{
    let chain = chain_from(input, node, 1, true, false);
    lemma_none(*input.tree, node, 1, GDScriptNodeKind::LineContinuation);
    lemma_chain_link(input, node, 1, true, (index - 1) / 2);
    assert(1 + 2 * ((index - 1) / 2) == index);
    assert(parent as usize == parent);
    assert(allows_implicit_continuation(*input.tree, node));
    assert(node_docs(input, node) == attribute_docs(input, node));
    assert(node_docs(input, node) == grouped(child_docs(input, node, 0) + chain));
}

/// The arguments of the last call of a chain follow its name, and only their first
/// line counts when the chain is laid out, so that long arguments do not break it.
pub proof fn arguments_of_the_last_call_follow_its_name(
    input: ParseInput,
    node: int,
    links: int,
) -> (parts: (Seq<Doc>, bool))
    requires
        input.tree_fits(),
        input.tree.has(node),
        input.tree.kind_of(node) == GDScriptNodeKind::Attribute,
        links >= 1,
        input.tree.child_count_of(node) == 2 * links + 3,
        input.tree.child_kind_of(node, 1) == GDScriptNodeKind::TokenDot,
        has_none(*input.tree, node, GDScriptNodeKind::LineContinuation),
        input.tree.child_kind_of(node, 2 * links + 2) == GDScriptNodeKind::AttributeCall,
        input.tree.child_count_of(input.tree.child_of(node, 2 * links + 2)) > 1,
    ensures
        node_docs(input, node) == grouped(
            parts.0 + link_docs(input, node, 2 * links + 1, parts.1)
                + grouped_until_first_line_break(
                child_docs(input, input.tree.child_of(node, 2 * links + 2), 1),
            ),
        ),
{
    let is_implicit = allows_implicit_continuation(*input.tree, node);
    let start = child_docs(input, node, 0);
    let link = link_docs(input, node, 2 * links + 1, !is_implicit);
    let call = input.tree.child_of(node, 2 * links + 2);
    let arguments = grouped_until_first_line_break(child_docs(input, call, 1));
    let chain = chain_from(input, node, 1, is_implicit, false);
    let front = lemma_chain_front(input, node, 1, is_implicit, links);
    lemma_chain_end(input, node, 2 * links + 1, is_implicit);
    lemma_regrouped(start, front, link, arguments);
    assert(node_docs(input, node) == grouped(start + chain)) by {
        lemma_none(*input.tree, node, 1, GDScriptNodeKind::LineContinuation);
        assert(node_docs(input, node) == attribute_docs(input, node));
    }
    (start + front, !is_implicit)
}

/// A chain ends with the arguments of its last call.
proof fn lemma_chain_end(input: ParseInput, node: int, index: int, is_implicit: bool)
    requires
        input.tree_fits(),
        input.tree.has(node),
        0 <= index,
        index + 2 == input.tree.child_count_of(node),
        has_none(*input.tree, node, GDScriptNodeKind::LineContinuation),
        input.tree.child_kind_of(node, index + 1) == GDScriptNodeKind::AttributeCall,
        input.tree.child_count_of(input.tree.child_of(node, index + 1)) > 1,
    ensures
        chain_from(input, node, index, is_implicit, false) == link_docs(
            input,
            node,
            index,
            !is_implicit,
        ) + grouped_until_first_line_break(
            child_docs(input, input.tree.child_of(node, index + 1), 1),
        ),
{
    let call = input.tree.child_of(node, index + 1);
    let arguments = grouped_until_first_line_break(child_docs(input, call, 1));
    assert(input.tree.child_of(node, index) == input.tree.child_of(node, index));
    lemma_chain_step(input, node, index, is_implicit);
    input.tree.lemma_child(node, index + 1);
    input.tree.lemma_child(call, 1);
    assert(member_arguments_docs(input, node, index + 1) == arguments);
    assert(chain_from(input, node, index + 2, is_implicit, false) == nothing());
    lemma_nothing_behind(arguments);
}

/// What stands in front of a link of a chain.
proof fn lemma_chain_front(
    input: ParseInput,
    node: int,
    from: int,
    is_implicit: bool,
    links: int,
) -> (front: Seq<Doc>)
    requires
        input.tree_fits(),
        input.tree.has(node),
        has_none(*input.tree, node, GDScriptNodeKind::LineContinuation),
        0 <= from,
        0 <= links,
        from + 2 * links + 1 < input.tree.child_count_of(node),
    ensures
        chain_from(input, node, from, is_implicit, false) == front + chain_from(
            input,
            node,
            from + 2 * links,
            is_implicit,
            false,
        ),
    decreases links,
{
    if links == 0 {
        lemma_nothing_in_front(chain_from(input, node, from, is_implicit, false));
        nothing()
    } else {
        assert(input.tree.child_of(node, from) == input.tree.child_of(node, from));
        lemma_chain_step(input, node, from, is_implicit);
        let inner = lemma_chain_front(input, node, from + 2, is_implicit, links - 1);
        let link = link_docs(input, node, from, !is_implicit);
        let arguments = member_arguments_docs(input, node, from + 1);
        let rest = chain_from(input, node, from + 2 * links, is_implicit, false);
        lemma_regrouped(link, arguments, inner, rest);
        link + (arguments + inner)
    }
}

proof fn lemma_nothing_in_front(docs: Seq<Doc>)
    ensures
        docs == nothing() + docs,
{
    assert(docs =~= nothing() + docs);
}

proof fn lemma_regrouped(first: Seq<Doc>, second: Seq<Doc>, third: Seq<Doc>, fourth: Seq<Doc>)
    ensures
        first + (second + (third + fourth)) == first + (second + third) + fourth,
        first + (second + (third + fourth)) == first + second + third + fourth,
{
    assert(first + (second + (third + fourth)) =~= first + (second + third) + fourth);
    assert(first + (second + (third + fourth)) =~= first + second + third + fourth);
}

proof fn lemma_nothing_behind(docs: Seq<Doc>)
    ensures
        docs + nothing() == docs,
{
    assert(docs + nothing() =~= docs);
}

/// The arguments of a call in front of the last one of a chain follow its name, too.
/// They stay on one line as far as they can, so that only their first line counts,
/// unless there is a lambda among them.
pub proof fn arguments_of_other_calls_follow_their_name(
    input: ParseInput,
    node: int,
    links: int,
) -> (parts: (Seq<Doc>, bool, Seq<Doc>))
    requires
        input.tree_fits(),
        input.tree.has(node),
        input.tree.kind_of(node) == GDScriptNodeKind::Attribute,
        links >= 0,
        2 * links + 3 < input.tree.child_count_of(node),
        input.tree.child_count_of(node) >= 5,
        input.tree.child_kind_of(node, 1) == GDScriptNodeKind::TokenDot,
        has_none(*input.tree, node, GDScriptNodeKind::LineContinuation),
        input.tree.child_kind_of(node, 2 * links + 2) == GDScriptNodeKind::AttributeCall,
        input.tree.child_count_of(input.tree.child_of(node, 2 * links + 2)) > 1,
    ensures
        ({
            let call = input.tree.child_of(node, 2 * links + 2);
            let arguments = input.tree.child_of(call, 1);
            let has_lambda = exists|index: int|
                #![trigger input.tree.child_of(arguments, index)]
                0 < index < input.tree.child_count_of(arguments) - 1 && input.tree.child_kind_of(
                    arguments,
                    index,
                ) == GDScriptNodeKind::Lambda;
            node_docs(input, node) == grouped(
                parts.0 + link_docs(input, node, 2 * links + 1, parts.1) + if has_lambda {
                    node_docs(input, arguments)
                } else {
                    grouped_until_first_line_break(flat_arguments_docs(input, arguments))
                } + parts.2,
            )
        }),
{
    let is_implicit = allows_implicit_continuation(*input.tree, node);
    let start = child_docs(input, node, 0);
    let link = link_docs(input, node, 2 * links + 1, !is_implicit);
    let chain = chain_from(input, node, 1, is_implicit, false);
    let rest = chain_from(input, node, 2 * links + 3, is_implicit, false);
    let front = lemma_chain_front(input, node, 1, is_implicit, links);
    let arguments = member_arguments_docs(input, node, 2 * links + 2);
    lemma_middle_arguments(input, node, 2 * links + 2);
    assert(input.tree.child_of(node, 2 * links + 1) == input.tree.child_of(node, 2 * links + 1));
    lemma_chain_step(input, node, 2 * links + 1, is_implicit);
    lemma_regrouped(start, front, link, arguments + rest);
    lemma_joined(start + front + link, arguments, rest);
    assert(node_docs(input, node) == grouped(start + chain)) by {
        lemma_none(*input.tree, node, 1, GDScriptNodeKind::LineContinuation);
        assert(node_docs(input, node) == attribute_docs(input, node));
    }
    (start + front, !is_implicit, rest)
}

proof fn lemma_joined(first: Seq<Doc>, second: Seq<Doc>, third: Seq<Doc>)
    ensures
        first + (second + third) == first + second + third,
{
    assert(first + (second + third) =~= first + second + third);
}

/// The arguments of a call in front of the last one.
proof fn lemma_middle_arguments(input: ParseInput, node: int, index: int)
    requires
        input.tree_fits(),
        input.tree.has(node),
        0 <= index,
        index + 1 < input.tree.child_count_of(node),
        input.tree.child_kind_of(node, index) == GDScriptNodeKind::AttributeCall,
        input.tree.child_count_of(input.tree.child_of(node, index)) > 1,
    ensures
        ({
            let call = input.tree.child_of(node, index);
            let arguments = input.tree.child_of(call, 1);
            let has_lambda = exists|at: int|
                #![trigger input.tree.child_of(arguments, at)]
                0 < at < input.tree.child_count_of(arguments) - 1 && input.tree.child_kind_of(
                    arguments,
                    at,
                ) == GDScriptNodeKind::Lambda;
            member_arguments_docs(input, node, index) == if has_lambda {
                node_docs(input, arguments)
            } else {
                grouped_until_first_line_break(flat_arguments_docs(input, arguments))
            }
        }),
{
    let call = input.tree.child_of(node, index);
    let arguments = input.tree.child_of(call, 1);
    let count = input.tree.child_count_of(arguments);
    let kind = GDScriptNodeKind::Lambda;
    input.tree.lemma_child(node, index);
    input.tree.lemma_child(call, 1);
    first_child_of_kind_is_the_first(*input.tree, arguments, 1, count - 1, kind);
    match first_child_of_kind(*input.tree, arguments, 1, count - 1, kind) {
        Some(at) => {
            assert(input.tree.child_of(arguments, at) == input.tree.child_of(arguments, at));
        },
        None => {},
    }
}

} // verus!
