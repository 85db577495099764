//! Lays out single nodes, and hands those with a layout of their own on.
use vstd::prelude::*;

use crate::document::{
    group_concat, grouped, hard_line, indented, nothing, produced, soft_line, source_text,
    unformatted, Doc,
};
use crate::formatter::bodies::{body_docs, lambda_docs, process_body, process_lambda};
use crate::formatter::chains::{attribute_docs, process_attribute};
use crate::formatter::containers::{container_docs, process_container};
use crate::formatter::operators::{
    binary_operator_docs, conditional_docs, process_binary_operator, process_conditional_expression,
};
use crate::formatter::queries::{
    contains_forced_multiline, contains_forced_multiline_node, find_child_of_kind,
    first_child_of_kind, has_parent_of_kind, is_type_subscript, parent_is, subscript_is_type,
};
use crate::formatter::regions::{
    classify_disabled_region_overlap, has_disabled_region, overlap, overlaps_a_region,
    DisabledRegionOverlapKind, Overlap,
};
use crate::formatter::rules::{indents_itself, is_verbatim};
use crate::formatter::separators::{process_separator_between_sibling_nodes, separator_docs};
use crate::node_kind::GDScriptNodeKind;
use crate::parser::{is_string_kind, ParseInput};
use crate::renderer::RenderElement;
use crate::string_literal::{format_string_literal, requoted, slice_text, QuoteStyle};
use crate::text::{contains_newline, has_newline};
use crate::writer::{is_writing, wrote, ElementWriter};

verus! {

broadcast use group_concat;

/// The documents of a node below another one.
pub open spec fn below_docs(input: ParseInput, ancestor: int, node: int) -> Seq<Doc>
    decreases input.tree.size() - ancestor, 0int, 0int,
{
    if ancestor < node < input.tree.size() {
        node_docs(input, node)
    } else {
        nothing()
    }
}

/// The documents of a child.
pub open spec fn child_docs(input: ParseInput, node: int, index: int) -> Seq<Doc>
    decreases input.tree.size() - node, 1int, 0int,
{
    below_docs(input, node, input.tree.child_of(node, index))
}

/// The documents of a node.
///
/// A node without children stands for its source, and literals and markers
/// keep theirs but for the quotes of strings. Everything else is laid out by
/// its kind.
pub open spec fn node_docs(input: ParseInput, node: int) -> Seq<Doc>
    decreases input.tree.size() - node, 20int, 0int,
{
    let kind = input.tree.kind_of(node);
    let start = input.tree.start_of(node);
    let end = input.tree.end_of(node);
    if input.tree.child_count_of(node) == 0 {
        if end > start {
            source_text(start, end)
        } else {
            nothing()
        }
    } else if is_verbatim(kind) {
        match requoted(input.text_of(node), input.quote_style) {
            Some(bytes) if is_string_kind(kind) => produced(bytes),
            _ => unformatted(start, end),
        }
    } else {
        match kind {
            GDScriptNodeKind::Array
            | GDScriptNodeKind::Dictionary
            | GDScriptNodeKind::EnumeratorList
            | GDScriptNodeKind::Parameters
            | GDScriptNodeKind::Arguments => container_docs(input, node),
            GDScriptNodeKind::SubscriptArguments => if is_type_subscript(*input.tree, node) {
                children_docs(input, node)
            } else {
                container_docs(input, node)
            },
            GDScriptNodeKind::Body | GDScriptNodeKind::ClassBody | GDScriptNodeKind::MatchBody => {
                body_docs(input, node, false)
            },
            GDScriptNodeKind::Lambda => lambda_docs(input, node),
            GDScriptNodeKind::Function => function_docs(input, node),
            GDScriptNodeKind::SetGet => setget_docs(input, node),
            GDScriptNodeKind::ParenthesizedExpression => parenthesized_docs(input, node),
            GDScriptNodeKind::BinaryOperator => binary_operator_docs(input, node),
            GDScriptNodeKind::Condition => conditional_docs(input, node),
            GDScriptNodeKind::Attribute => attribute_docs(input, node),
            _ => children_docs(input, node),
        }
    }
}

/// The children from `from` up to, not including, `to`, each behind what
/// separates it from the one before.
pub open spec fn separated_docs(
    input: ParseInput,
    node: int,
    parent: GDScriptNodeKind,
    from: int,
    to: int,
) -> Seq<Doc>
    decreases input.tree.size() - node, 10int, to - from,
{
    if from >= to {
        nothing()
    } else {
        separator_docs(
            input,
            parent,
            input.tree.child_of(node, from - 1),
            input.tree.child_of(node, from),
        ) + child_docs(input, node, from) + separated_docs(input, node, parent, from + 1, to)
    }
}

/// The children from `from` up to, not including, `to`, with what separates
/// them.
pub open spec fn run_docs(
    input: ParseInput,
    node: int,
    parent: GDScriptNodeKind,
    from: int,
    to: int,
) -> Seq<Doc>
    decreases input.tree.size() - node, 11int, 0int,
{
    if from >= to {
        nothing()
    } else {
        child_docs(input, node, from) + separated_docs(input, node, parent, from + 1, to)
    }
}

/// A function: its header, which breaks as a whole, and its body. A function
/// that a disabled region reaches into is laid out child by child.
pub open spec fn function_docs(input: ParseInput, node: int) -> Seq<Doc>
    decreases input.tree.size() - node, 15int, 0int,
{
    let count = input.tree.child_count_of(node);
    let function = GDScriptNodeKind::Function;
    if overlaps_a_region(input, node) {
        children_docs(input, node)
    } else {
        match first_child_of_kind(*input.tree, node, 0, count, GDScriptNodeKind::Body) {
            None => grouped(run_docs(input, node, function, 0, count)),
            Some(body) => grouped(run_docs(input, node, function, 0, body)) + (if body > 0 {
                separator_docs(
                    input,
                    function,
                    input.tree.child_of(node, body - 1),
                    input.tree.child_of(node, body),
                )
            } else {
                nothing()
            }) + child_docs(input, node, body),
        }
    }
}

/// The accessors of a property: the first child, and the others on lines of
/// their own.
pub open spec fn setget_docs(input: ParseInput, node: int) -> Seq<Doc>
    decreases input.tree.size() - node, 15int, 0int,
{
    let count = input.tree.child_count_of(node);
    if count == 0 {
        nothing()
    } else if count == 1 {
        child_docs(input, node, 0)
    } else {
        child_docs(input, node, 0) + hard_line() + indented(
            1,
            run_docs(input, node, GDScriptNodeKind::SetGet, 1, count),
        )
    }
}

/// True of a lambda in parentheses that is an argument of a call.
pub open spec fn is_parenthesized_lambda_argument(input: ParseInput, node: int) -> bool {
    input.tree.child_count_of(node) == 3 && input.tree.child_kind_of(node, 1)
        == GDScriptNodeKind::Lambda && parent_is(*input.tree, node, GDScriptNodeKind::Arguments)
}

/// An expression in parentheses. It is a group if it spans several lines and
/// does not indent its own contents.
pub open spec fn parenthesized_docs(input: ParseInput, node: int) -> Seq<Doc>
    decreases input.tree.size() - node, 15int, 0int,
{
    let count = input.tree.child_count_of(node);
    if count < 3 {
        children_docs(input, node)
    } else if indents_itself(input.tree.child_kind_of(node, 1)) {
        if is_parenthesized_lambda_argument(input, node) {
            child_docs(input, node, 0) + child_docs(input, node, 1) + indented(
                1,
                child_docs(input, node, 2),
            )
        } else {
            children_docs(input, node)
        }
    } else if !contains_newline(
        input.bytes(),
        input.tree.end_of(input.tree.child_of(node, 0)),
        input.tree.start_of(input.tree.child_of(node, count - 1)),
    ) && !contains_forced_multiline(*input.tree, node) {
        children_docs(input, node)
    } else {
        grouped(
            child_docs(input, node, 0) + soft_line() + indented(
                1,
                run_docs(input, node, GDScriptNodeKind::ParenthesizedExpression, 1, count - 1),
            ) + soft_line() + child_docs(input, node, count - 1),
        )
    }
}

/// A child, where a backslash ends its line and what follows a backslash is
/// indented.
pub open spec fn continued_docs(input: ParseInput, node: int, index: int) -> Seq<Doc>
    decreases input.tree.size() - node, 2int, 0int,
{
    let start = input.tree.start_of(input.tree.child_of(node, index));
    if index > 0 && input.tree.child_kind_of(node, index - 1)
        == GDScriptNodeKind::LineContinuation {
        indented(input.continuation_indent_level as int, child_docs(input, node, index))
    } else if input.tree.child_kind_of(node, index) == GDScriptNodeKind::LineContinuation {
        source_text(start, start + 1) + hard_line()
    } else {
        child_docs(input, node, index)
    }
}

/// What separates a child from the one before it, if there is one.
pub open spec fn separator_before(input: ParseInput, node: int, index: int) -> Seq<Doc> {
    if index > 0 {
        separator_docs(
            input,
            input.tree.kind_of(node),
            input.tree.child_of(node, index - 1),
            input.tree.child_of(node, index),
        )
    } else {
        nothing()
    }
}

/// The children from `index` on, with what separates them. What a disabled
/// region covers is copied as it is.
pub open spec fn children_from(input: ParseInput, node: int, index: int) -> Seq<Doc>
    decreases input.tree.size() - node, 10int, input.tree.children_left(node, index),
{
    if index >= input.tree.child_count_of(node) {
        nothing()
    } else {
        match overlap(input, node, index) {
            Overlap::Covered { region, following } => (if input.tree.start_of(
                input.tree.child_of(node, index),
            ) == region.start {
                separator_before(input, node, index) + unformatted(
                    region.start as int,
                    region.end as int,
                )
            } else {
                nothing()
            }) + children_from(input, node, index + following + 1),
            Overlap::Partial => child_docs(input, node, index) + children_from(
                input,
                node,
                index + 1,
            ),
            Overlap::Clear => separator_before(input, node, index) + continued_docs(
                input,
                node,
                index,
            ) + children_from(input, node, index + 1),
        }
    }
}

/// The children of a node, with what separates them.
pub open spec fn children_docs(input: ParseInput, node: int) -> Seq<Doc>
    decreases input.tree.size() - node, 12int, 0int,
{
    children_from(input, node, 0)
}

/// Writes a node. This goes by its kind, and from there to its children.
pub fn process_node(input: &ParseInput, node: usize, writer: &mut ElementWriter)
    requires
        input.tree_fits(),
        input.tree.has(node as int),
        old(writer).wf(),
    ensures
        wrote(*old(writer), *final(writer), node_docs(*input, node as int)),
    decreases input.tree.size() - node, 20int, 0int,
{
    let kind = input.kind(node);
    if input.tree.child_count(node) == 0 {
        let start_byte: usize = input.tree.start_byte(node);
        let end_byte: usize = input.tree.end_byte(node);
        if end_byte > start_byte {
            writer.push_text(start_byte, end_byte);
        }
        return ;
    }
    if is_verbatim(kind) {
        process_verbatim(input, node, writer);
        return ;
    }
    match kind {
        GDScriptNodeKind::Array
        | GDScriptNodeKind::Dictionary
        | GDScriptNodeKind::EnumeratorList
        | GDScriptNodeKind::Parameters
        | GDScriptNodeKind::Arguments => process_container(input, node, writer),
        GDScriptNodeKind::SubscriptArguments => {
            if subscript_is_type(input.tree, node) {
                process_children_with_spacing(input, node, writer);
            } else {
                process_container(input, node, writer);
            }
        },
        GDScriptNodeKind::Body | GDScriptNodeKind::ClassBody | GDScriptNodeKind::MatchBody => {
            process_body(input, node, false, writer)
        },
        GDScriptNodeKind::Lambda => process_lambda(input, node, writer),
        GDScriptNodeKind::Function => process_function(input, node, writer),
        GDScriptNodeKind::SetGet => process_setget(input, node, writer),
        GDScriptNodeKind::ParenthesizedExpression => {
            process_parenthesized_expression(input, node, writer)
        },
        GDScriptNodeKind::BinaryOperator => process_binary_operator(input, node, writer),
        GDScriptNodeKind::Condition => process_conditional_expression(input, node, writer),
        GDScriptNodeKind::Attribute => process_attribute(input, node, writer),
        _ => process_children_with_spacing(input, node, writer),
    }
}

/// Writes a node whose source is kept but for the quotes of a string.
fn process_verbatim(input: &ParseInput, node: usize, writer: &mut ElementWriter)
    requires
        input.tree_fits(),
        input.tree.has(node as int),
        input.tree.child_count_of(node as int) > 0,
        is_verbatim(input.tree.kind_of(node as int)),
        old(writer).wf(),
    ensures
        wrote(*old(writer), *final(writer), node_docs(*input, node as int)),
{
    proof {
        input.lemma_node(node as int);
    }
    let kind = input.kind(node);
    let start: usize = input.tree.start_byte(node);
    let end: usize = input.tree.end_byte(node);
    if input.quote_style != QuoteStyle::Preserve && matches!(
        kind,
        GDScriptNodeKind::String | GDScriptNodeKind::StringName | GDScriptNodeKind::NodePath
    ) {
        let literal = slice_text(input.source, start, end);
        match format_string_literal(literal, input.quote_style) {
            Some(formatted) => {
                writer.push(RenderElement::TextProducedByFormatter(formatted));
                return ;
            },
            None => {},
        }
    }
    writer.push_unformatted(start, end);
}

/// Writes a child.
pub fn process_child(input: &ParseInput, node: usize, index: usize, writer: &mut ElementWriter)
    requires
        input.tree_fits(),
        input.tree.has(node as int),
        index < input.tree.child_count_of(node as int),
        old(writer).wf(),
    ensures
        wrote(*old(writer), *final(writer), child_docs(*input, node as int, index as int)),
    decreases input.tree.size() - node, 1int, 0int,
{
    proof {
        input.tree.lemma_child(node as int, index as int);
    }
    let child: usize = input.tree.child(node, index);
    process_node(input, child, writer);
    assert(child_docs(*input, node as int, index as int) == below_docs(
        *input,
        node as int,
        child as int,
    ));
}

/// Writes what separates a child from the one before it.
pub fn process_separator(
    input: &ParseInput,
    node: usize,
    parent: GDScriptNodeKind,
    index: usize,
    writer: &mut ElementWriter,
)
    requires
        input.tree_fits(),
        input.tree.has(node as int),
        0 < index < input.tree.child_count_of(node as int),
        old(writer).wf(),
    ensures
        wrote(
            *old(writer),
            *final(writer),
            separator_docs(
                *input,
                parent,
                input.tree.child_of(node as int, index - 1),
                input.tree.child_of(node as int, index as int),
            ),
        ),
{
    proof {
        input.tree.lemma_child(node as int, index - 1);
        input.tree.lemma_child(node as int, index as int);
    }
    process_separator_between_sibling_nodes(
        input,
        parent,
        input.tree.child(node, index - 1),
        input.tree.child(node, index),
        writer,
    );
}

/// Writes the children from `from` up to, not including, `to`, each behind what
/// separates it from the one before.
pub fn process_separated(
    input: &ParseInput,
    node: usize,
    parent: GDScriptNodeKind,
    from: usize,
    to: usize,
    writer: &mut ElementWriter,
)
    requires
        input.tree_fits(),
        input.tree.has(node as int),
        0 < from,
        to <= input.tree.child_count_of(node as int),
        old(writer).wf(),
    ensures
        wrote(
            *old(writer),
            *final(writer),
            separated_docs(*input, node as int, parent, from as int, to as int),
        ),
    decreases input.tree.size() - node, 10int, 0int,
{
    let ghost total = separated_docs(*input, node as int, parent, from as int, to as int);
    let mut index: usize = from;
    while index < to
        invariant
            0 < index,
            from <= index,
            to <= input.tree.child_count_of(node as int),
            input.tree_fits(),
            input.tree.has(node as int),
            is_writing(
                *old(writer),
                *writer,
                separated_docs(*input, node as int, parent, index as int, to as int),
                total,
            ),
        decreases to - index,
    {
        process_separator(input, node, parent, index, writer);
        process_child(input, node, index, writer);
        index = index + 1;
    }
}

/// Writes the children from `from` up to, not including, `to`, with what
/// separates them.
pub fn process_run(
    input: &ParseInput,
    node: usize,
    parent: GDScriptNodeKind,
    from: usize,
    to: usize,
    writer: &mut ElementWriter,
)
    requires
        input.tree_fits(),
        input.tree.has(node as int),
        to <= input.tree.child_count_of(node as int),
        old(writer).wf(),
    ensures
        wrote(
            *old(writer),
            *final(writer),
            run_docs(*input, node as int, parent, from as int, to as int),
        ),
    decreases input.tree.size() - node, 11int, 0int,
{
    if from < to {
        process_child(input, node, from, writer);
        process_separated(input, node, parent, from + 1, to, writer);
    }
}

/// Writes a function. Its header, with the return type, is one group that
/// decides whether the parameters wrap.
pub fn process_function(input: &ParseInput, node: usize, writer: &mut ElementWriter)
    requires
        input.tree_fits(),
        input.tree.has(node as int),
        old(writer).wf(),
    ensures
        wrote(*old(writer), *final(writer), function_docs(*input, node as int)),
    decreases input.tree.size() - node, 15int, 0int,
{
    if has_disabled_region(input, node) {
        process_children_with_spacing(input, node, writer);
        return ;
    }
    let count: usize = input.tree.child_count(node);
    let group = writer.begin_group();
    match find_child_of_kind(input.tree, node, 0, count, GDScriptNodeKind::Body) {
        None => {
            process_run(input, node, GDScriptNodeKind::Function, 0, count, writer);
            writer.finish(group);
        },
        Some(body) => {
            process_run(input, node, GDScriptNodeKind::Function, 0, body, writer);
            writer.finish(group);
            if body > 0 {
                process_separator(input, node, GDScriptNodeKind::Function, body, writer);
            }
            process_child(input, node, body, writer);
        },
    }
}

/// Writes the accessors of a property.
pub fn process_setget(input: &ParseInput, node: usize, writer: &mut ElementWriter)
    requires
        input.tree_fits(),
        input.tree.has(node as int),
        old(writer).wf(),
    ensures
        wrote(*old(writer), *final(writer), setget_docs(*input, node as int)),
    decreases input.tree.size() - node, 15int, 0int,
{
    let count: usize = input.tree.child_count(node);
    if count == 0 {
        return ;
    }
    process_child(input, node, 0, writer);
    if count > 1 {
        writer.push_hard_line();
        let indent = writer.begin_indent(1);
        process_run(input, node, GDScriptNodeKind::SetGet, 1, count, writer);
        writer.finish(indent);
    }
}

/// Writes an expression in parentheses.
pub fn process_parenthesized_expression(
    input: &ParseInput,
    node: usize,
    writer: &mut ElementWriter,
)
    requires
        input.tree_fits(),
        input.tree.has(node as int),
        old(writer).wf(),
    ensures
        wrote(*old(writer), *final(writer), parenthesized_docs(*input, node as int)),
    decreases input.tree.size() - node, 15int, 0int,
{
    let count: usize = input.tree.child_count(node);
    if count < 3 {
        process_children_with_spacing(input, node, writer);
        return ;
    }
    let first_inner_kind = input.tree.child_kind(node, 1);
    if indents_itself(first_inner_kind) {
        if count == 3 && first_inner_kind == GDScriptNodeKind::Lambda && has_parent_of_kind(
            input.tree,
            node,
            GDScriptNodeKind::Arguments,
        ) {
            // The closing parenthesis has to be indented like the body of the
            // lambda, or the argument list does not parse.
            process_child(input, node, 0, writer);
            process_child(input, node, 1, writer);
            let indent = writer.begin_indent(1);
            process_child(input, node, 2, writer);
            writer.finish(indent);
            return ;
        }
        process_children_with_spacing(input, node, writer);
        return ;
    }
    proof {
        input.lemma_siblings(node as int, 0, count - 1);
    }
    let body_has_newlines = has_newline(
        input.source,
        input.tree.end_byte(input.tree.child(node, 0)),
        input.tree.start_byte(input.tree.child(node, count - 1)),
    );
    if !body_has_newlines && !contains_forced_multiline_node(input.tree, node) {
        process_children_with_spacing(input, node, writer);
        return ;
    }
    let group = writer.begin_group();
    process_child(input, node, 0, writer);
    writer.push_soft_line();
    let indent = writer.begin_indent(1);
    process_run(
        input,
        node,
        GDScriptNodeKind::ParenthesizedExpression,
        1,
        count - 1,
        writer,
    );
    writer.finish(indent);
    writer.push_soft_line();
    process_child(input, node, count - 1, writer);
    writer.finish(group);
}

/// Writes a child, where a backslash ends its line and what follows a backslash
/// is indented.
pub fn process_continued(
    input: &ParseInput,
    node: usize,
    index: usize,
    writer: &mut ElementWriter,
)
    requires
        input.tree_fits(),
        input.tree.has(node as int),
        index < input.tree.child_count_of(node as int),
        old(writer).wf(),
    ensures
        wrote(*old(writer), *final(writer), continued_docs(*input, node as int, index as int)),
    decreases input.tree.size() - node, 2int, 0int,
{
    proof {
        input.tree.lemma_child(node as int, index as int);
    }
    if index > 0 && input.tree.child_kind(node, index - 1) == GDScriptNodeKind::LineContinuation {
        let indent = writer.begin_indent(input.continuation_indent_level);
        process_child(input, node, index, writer);
        writer.finish(indent);
    } else if input.tree.child_kind(node, index) == GDScriptNodeKind::LineContinuation {
        let start: usize = input.tree.start_byte(input.tree.child(node, index));
        proof {
            input.lemma_node(input.tree.child_of(node as int, index as int));
        }
        writer.push_text(start, start + 1);
        writer.push_hard_line();
    } else {
        process_child(input, node, index, writer);
    }
}

/// Writes the children of a node, with what separates them. This is the layout
/// of all nodes that have none of their own.
pub fn process_children_with_spacing(input: &ParseInput, node: usize, writer: &mut ElementWriter)
    requires
        input.tree_fits(),
        input.tree.has(node as int),
        old(writer).wf(),
    ensures
        wrote(*old(writer), *final(writer), children_docs(*input, node as int)),
    decreases input.tree.size() - node, 12int, 0int,
{
    let ghost total = children_docs(*input, node as int);
    let parent_kind = input.kind(node);
    let count: usize = input.tree.child_count(node);
    let mut index: usize = 0;
    while index < count
        invariant
            index <= count == input.tree.child_count_of(node as int),
            parent_kind == input.tree.kind_of(node as int),
            input.tree_fits(),
            input.tree.has(node as int),
            is_writing(
                *old(writer),
                *writer,
                children_from(*input, node as int, index as int),
                total,
            ),
        decreases count - index,
    {
        proof {
            input.tree.lemma_child(node as int, index as int);
        }
        match classify_disabled_region_overlap(input, node, index) {
            DisabledRegionOverlapKind::CoveredFully(span) => {
                if input.tree.start_byte(input.tree.child(node, index)) == span.region.start {
                    if index > 0 {
                        process_separator(input, node, parent_kind, index, writer);
                    }
                    writer.push_unformatted(span.region.start, span.region.end);
                }
                index = span.last_covered_index + 1;
            },
            DisabledRegionOverlapKind::PartiallyCovered => {
                process_child(input, node, index, writer);
                index = index + 1;
            },
            DisabledRegionOverlapKind::NotCovered => {
                if index > 0 {
                    process_separator(input, node, parent_kind, index, writer);
                }
                process_continued(input, node, index, writer);
                index = index + 1;
            },
        }
    }
}

} // verus!
