//! Lays out chains of attributes and method calls.
use vstd::prelude::*;

use crate::document::{
    fixed, group_concat, grouped, grouped_until_first_line_break, if_multiline, indented, nothing,
    soft_line, space, Doc,
};
use crate::formatter::nodes::{
    child_docs, children_docs, node_docs, process_child, process_children_with_spacing,
    process_node, process_separated, separated_docs,
};
use crate::formatter::queries::{
    allows_implicit_continuation, chain_allows_implicit_continuation, find_child_of_kind,
    first_child_of_kind,
};
use crate::formatter::separators::{process_separator_between_sibling_nodes, separator_docs};
use crate::node_kind::GDScriptNodeKind;
use crate::parser::ParseInput;
use crate::syntax_tree::SyntaxTree;
use crate::writer::{is_writing, wrote, ElementWriter, SpanKind};

verus! {

broadcast use group_concat;

/// The name of a method in a call.
pub open spec fn method_name_docs(input: ParseInput, call: int) -> Seq<Doc>
    decreases input.tree.size() - call, 2int, 0int,
{
    if input.tree.child_count_of(call) > 0 {
        child_docs(input, call, 0)
    } else {
        nothing()
    }
}

/// True where a lambda is an argument of a call.
pub open spec fn has_lambda_argument(tree: SyntaxTree, arguments: int) -> bool {
    first_child_of_kind(
        tree,
        arguments,
        1,
        tree.child_count_of(arguments) - 1,
        GDScriptNodeKind::Lambda,
    ) is Some
}

/// The arguments of a method call in a chain. Only their first line counts when
/// the chain is laid out, so that long arguments do not break it, but for those
/// with a lambda in the middle of a chain.
pub open spec fn method_arguments_docs(input: ParseInput, call: int, is_last: bool) -> Seq<Doc>
    decreases input.tree.size() - call, 2int, 0int,
{
    let arguments = input.tree.child_of(call, 1);
    if input.tree.child_count_of(call) <= 1 || !(call < arguments < input.tree.size()) {
        nothing()
    } else if is_last {
        grouped_until_first_line_break(node_docs(input, arguments))
    } else if has_lambda_argument(*input.tree, arguments) {
        node_docs(input, arguments)
    } else {
        grouped_until_first_line_break(flat_arguments_docs(input, arguments))
    }
}

/// The arguments of a call without possible line breaks of their own, and
/// without a trailing comma.
pub open spec fn flat_arguments_docs(input: ParseInput, arguments: int) -> Seq<Doc>
    decreases input.tree.size() - arguments, 15int, 0int,
{
    let count = input.tree.child_count_of(arguments);
    let kind = input.tree.kind_of(arguments);
    let end = if count >= 3 && input.tree.child_kind_of(arguments, count - 2)
        == GDScriptNodeKind::TokenComma {
        count - 2
    } else {
        count - 1
    };
    if count < 2 {
        nothing()
    } else {
        child_docs(input, arguments, 0) + separated_docs(input, arguments, kind, 1, end)
            + separator_docs(
            input,
            kind,
            input.tree.child_of(arguments, end - 1),
            input.tree.child_of(arguments, count - 1),
        ) + child_docs(input, arguments, count - 1)
    }
}

/// True where a child of a chain is a method call.
pub open spec fn is_method_call(input: ParseInput, node: int, index: int) -> bool {
    index < input.tree.child_count_of(node) && input.tree.child_kind_of(node, index)
        == GDScriptNodeKind::AttributeCall
}

/// The part of a chain behind a dot, without the arguments of a method call.
pub open spec fn member_docs(input: ParseInput, node: int, index: int) -> Seq<Doc>
    decreases input.tree.size() - node, 3int, 0int,
{
    let child = input.tree.child_of(node, index);
    if index >= input.tree.child_count_of(node) {
        nothing()
    } else if is_method_call(input, node, index) {
        if node < child < input.tree.size() {
            method_name_docs(input, child)
        } else {
            nothing()
        }
    } else {
        child_docs(input, node, index)
    }
}

/// The arguments of the method call behind a dot, if there is one.
pub open spec fn member_arguments_docs(input: ParseInput, node: int, index: int) -> Seq<Doc>
    decreases input.tree.size() - node, 3int, 0int,
{
    let child = input.tree.child_of(node, index);
    if is_method_call(input, node, index) && node < child < input.tree.size() {
        method_arguments_docs(input, child, index + 1 >= input.tree.child_count_of(node))
    } else {
        nothing()
    }
}

/// The part of a chain from `index` on.
///
/// Where the source continues lines with backslashes, the chain breaks there
/// and nowhere else. Otherwise it breaks in front of every dot or nowhere, with
/// backslashes unless a delimiter around the chain continues its lines.
pub open spec fn chain_from(
    input: ParseInput,
    node: int,
    index: int,
    is_implicit: bool,
    is_explicit: bool,
) -> Seq<Doc>
    decreases input.tree.size() - node, 10int, input.tree.children_left(node, index),
{
    let count = input.tree.child_count_of(node);
    let level = input.continuation_indent_level as int;
    if index >= count {
        nothing()
    } else if input.tree.child_kind_of(node, index) == GDScriptNodeKind::LineContinuation {
        space() + child_docs(input, node, index) + (if index + 1 < count {
            indented(
                level,
                child_docs(input, node, index + 1) + member_docs(input, node, index + 2),
            ) + member_arguments_docs(input, node, index + 2)
        } else {
            nothing()
        }) + chain_from(input, node, index + 3, is_implicit, is_explicit)
    } else if !is_implicit && !is_explicit {
        indented(
            level,
            if_multiline(space() + fixed("\\"@)) + soft_line() + child_docs(input, node, index)
                + member_docs(input, node, index + 1),
        ) + member_arguments_docs(input, node, index + 1) + chain_from(
            input,
            node,
            index + 2,
            is_implicit,
            is_explicit,
        )
    } else {
        (if is_explicit {
            nothing()
        } else {
            soft_line()
        }) + child_docs(input, node, index) + member_docs(input, node, index + 1)
            + member_arguments_docs(input, node, index + 1) + chain_from(
            input,
            node,
            index + 2,
            is_implicit,
            is_explicit,
        )
    }
}

/// Nothing follows the last part of a chain.
proof fn lemma_chain_end(
    input: ParseInput,
    node: int,
    index: int,
    is_implicit: bool,
    is_explicit: bool,
)
    ensures
        index >= input.tree.child_count_of(node) ==> chain_from(
            input,
            node,
            index,
            is_implicit,
            is_explicit,
        ) == nothing(),
{
}

/// An expression with attributes. A chain of at least two is a group, a single
/// one is laid out child by child.
pub open spec fn attribute_docs(input: ParseInput, node: int) -> Seq<Doc>
    decreases input.tree.size() - node, 15int, 0int,
{
    let count = input.tree.child_count_of(node);
    if count < 5 || input.tree.child_kind_of(node, 1) != GDScriptNodeKind::TokenDot {
        children_docs(input, node)
    } else {
        grouped(
            child_docs(input, node, 0) + chain_from(
                input,
                node,
                1,
                allows_implicit_continuation(*input.tree, node),
                first_child_of_kind(
                    *input.tree,
                    node,
                    1,
                    count,
                    GDScriptNodeKind::LineContinuation,
                ) is Some,
            ),
        )
    }
}

/// Writes the name of a method in a call.
fn process_method_call_name(input: &ParseInput, call: usize, writer: &mut ElementWriter)
    requires
        input.tree_fits(),
        input.tree.has(call as int),
        old(writer).wf(),
    ensures
        wrote(*old(writer), *final(writer), method_name_docs(*input, call as int)),
    decreases input.tree.size() - call, 2int, 0int,
{
    if input.tree.child_count(call) > 0 {
        process_child(input, call, 0, writer);
    }
}

/// Writes the arguments of a method call in a chain.
fn process_method_call_arguments(
    input: &ParseInput,
    call: usize,
    is_last_chain_call: bool,
    writer: &mut ElementWriter,
)
    requires
        input.tree_fits(),
        input.tree.has(call as int),
        old(writer).wf(),
    ensures
        wrote(
            *old(writer),
            *final(writer),
            method_arguments_docs(*input, call as int, is_last_chain_call),
        ),
    decreases input.tree.size() - call, 2int, 0int,
{
    if input.tree.child_count(call) <= 1 {
        return ;
    }
    proof {
        input.tree.lemma_child(call as int, 1);
    }
    let arguments: usize = input.tree.child(call, 1);
    let count: usize = input.tree.child_count(arguments);
    let has_lambda = count > 0 && find_child_of_kind(
        input.tree,
        arguments,
        1,
        count - 1,
        GDScriptNodeKind::Lambda,
    ).is_some();
    if is_last_chain_call {
        let group = writer.begin_group_until_first_line_break();
        process_node(input, arguments, writer);
        writer.finish(group);
    } else if has_lambda {
        process_node(input, arguments, writer);
    } else {
        let group = writer.begin_group_until_first_line_break();
        process_method_arguments_flat(input, arguments, writer);
        writer.finish(group);
    }
}

/// Writes the arguments of a call without possible line breaks of their own.
fn process_method_arguments_flat(
    input: &ParseInput,
    arguments: usize,
    writer: &mut ElementWriter,
)
    requires
        input.tree_fits(),
        input.tree.has(arguments as int),
        old(writer).wf(),
    ensures
        wrote(*old(writer), *final(writer), flat_arguments_docs(*input, arguments as int)),
    decreases input.tree.size() - arguments, 15int, 0int,
{
    let count: usize = input.tree.child_count(arguments);
    if count < 2 {
        return ;
    }
    let kind = input.kind(arguments);
    let end: usize = if count >= 3 && input.tree.child_kind(arguments, count - 2)
        == GDScriptNodeKind::TokenComma {
        count - 2
    } else {
        count - 1
    };
    process_child(input, arguments, 0, writer);
    process_separated(input, arguments, kind, 1, end, writer);
    proof {
        input.tree.lemma_child(arguments as int, end - 1);
        input.tree.lemma_child(arguments as int, count - 1);
    }
    process_separator_between_sibling_nodes(
        input,
        kind,
        input.tree.child(arguments, end - 1),
        input.tree.child(arguments, count - 1),
        writer,
    );
    process_child(input, arguments, count - 1, writer);
}

/// Writes the part of a chain behind a dot, without the arguments of a method
/// call.
fn process_member(input: &ParseInput, node: usize, index: usize, writer: &mut ElementWriter)
    requires
        input.tree_fits(),
        input.tree.has(node as int),
        old(writer).wf(),
    ensures
        wrote(*old(writer), *final(writer), member_docs(*input, node as int, index as int)),
    decreases input.tree.size() - node, 3int, 0int,
{
    if index < input.tree.child_count(node) {
        proof {
            input.tree.lemma_child(node as int, index as int);
        }
        let child: usize = input.tree.child(node, index);
        if input.kind(child) == GDScriptNodeKind::AttributeCall {
            process_method_call_name(input, child, writer);
        } else {
            process_child(input, node, index, writer);
        }
    }
}

/// Writes the arguments of the method call behind a dot, if there is one.
fn process_member_arguments(
    input: &ParseInput,
    node: usize,
    index: usize,
    writer: &mut ElementWriter,
)
    requires
        input.tree_fits(),
        input.tree.has(node as int),
        old(writer).wf(),
    ensures
        wrote(
            *old(writer),
            *final(writer),
            member_arguments_docs(*input, node as int, index as int),
        ),
    decreases input.tree.size() - node, 3int, 0int,
{
    let count: usize = input.tree.child_count(node);
    if index < count {
        proof {
            input.tree.lemma_child(node as int, index as int);
        }
        let child: usize = input.tree.child(node, index);
        if input.kind(child) == GDScriptNodeKind::AttributeCall {
            process_method_call_arguments(input, child, index + 1 >= count, writer);
        }
    }
}

/// Writes an expression with attributes.
pub fn process_attribute(input: &ParseInput, node: usize, writer: &mut ElementWriter)
    requires
        input.tree_fits(),
        input.tree.has(node as int),
        old(writer).wf(),
    ensures
        wrote(*old(writer), *final(writer), attribute_docs(*input, node as int)),
    decreases input.tree.size() - node, 15int, 0int,
{
    let count: usize = input.tree.child_count(node);
    if count < 5 || input.tree.child_kind(node, 1) != GDScriptNodeKind::TokenDot {
        process_children_with_spacing(input, node, writer);
        return ;
    }
    let is_implicit = chain_allows_implicit_continuation(input.tree, node);
    let is_explicit = find_child_of_kind(
        input.tree,
        node,
        1,
        count,
        GDScriptNodeKind::LineContinuation,
    ).is_some();
    let group = writer.begin_group();
    process_child(input, node, 0, writer);
    process_chain(input, node, is_implicit, is_explicit, writer);
    writer.finish(group);
}

/// Writes a chain behind the expression that it starts with.
fn process_chain(
    input: &ParseInput,
    node: usize,
    is_implicit: bool,
    is_explicit: bool,
    writer: &mut ElementWriter,
)
    requires
        input.tree_fits(),
        input.tree.has(node as int),
        input.tree.child_count_of(node as int) >= 1,
        old(writer).wf(),
    ensures
        wrote(
            *old(writer),
            *final(writer),
            chain_from(*input, node as int, 1, is_implicit, is_explicit),
        ),
    decreases input.tree.size() - node, 11int, 0int,
{
    let ghost total = chain_from(*input, node as int, 1, is_implicit, is_explicit);
    let count: usize = input.tree.child_count(node);
    let mut index: usize = 1;
    while index < count
        invariant
            1 <= index,
            index <= count,
            count == input.tree.child_count_of(node as int),
            input.tree_fits(),
            input.tree.has(node as int),
            is_writing(
                *old(writer),
                *writer,
                chain_from(*input, node as int, index as int, is_implicit, is_explicit),
                total,
            ),
        decreases count - index,
    {
        proof {
            lemma_chain_end(*input, node as int, index + 2, is_implicit, is_explicit);
            lemma_chain_end(*input, node as int, index + 3, is_implicit, is_explicit);
            lemma_chain_end(*input, node as int, count as int, is_implicit, is_explicit);
        }
        if input.tree.child_kind(node, index) == GDScriptNodeKind::LineContinuation {
            writer.push_space();
            process_child(input, node, index, writer);
            if count - index > 1 {
                let indent = writer.begin_indent(input.continuation_indent_level);
                process_child(input, node, index + 1, writer);
                process_member(input, node, index + 2, writer);
                writer.finish(indent);
                process_member_arguments(input, node, index + 2, writer);
            }
            index = if count - index > 3 {
                index + 3
            } else {
                count
            };
        } else if !is_implicit && !is_explicit {
            let indent = writer.begin_indent(input.continuation_indent_level);
            let branch = writer.begin(SpanKind::MultilineBranch);
            writer.push_space();
            writer.push_fixed("\\");
            writer.finish(branch);
            writer.push_soft_line();
            process_child(input, node, index, writer);
            process_member(input, node, index + 1, writer);
            writer.finish(indent);
            process_member_arguments(input, node, index + 1, writer);
            index = if count - index > 2 {
                index + 2
            } else {
                count
            };
        } else {
            if !is_explicit {
                writer.push_soft_line();
            }
            process_child(input, node, index, writer);
            process_member(input, node, index + 1, writer);
            process_member_arguments(input, node, index + 1, writer);
            index = if count - index > 2 {
                index + 2
            } else {
                count
            };
        }
    }
}

} // verus!
