//! Lays out comma-separated containers: arrays, dictionaries, enums, and the
//! parameters and arguments of functions.
use vstd::prelude::*;

use crate::document::{
    blank_line, fixed, force_break, group_concat, grouped, hard_line, if_multiline, indented,
    nothing, soft_line, space, space_single_line_only, Doc,
};
use crate::formatter::bodies::{child_starts_on_new_line, starts_on_new_line};
use crate::formatter::nodes::{child_docs, process_child, process_separator};
use crate::formatter::queries::{
    any_child_contains_lambda, count_newlines_before_child, find_child_of_kind, first_child_of_kind,
    has_child_with_lambda, has_parent_of_kind, is_lambda_body_ending_with_comment,
    lambda_ends_with_comment, lambda_ends_with_match, lambda_ends_with_match_node,
    newlines_before_child, parent_is,
};
use crate::formatter::separators::separator_docs;
use crate::node_kind::GDScriptNodeKind;
use crate::parser::ParseInput;
use crate::writer::{is_writing, wrote, ElementWriter, SpanKind};

verus! {

broadcast use group_concat;

/// True of the containers with a space inside of their braces.
pub open spec fn has_inner_space(kind: GDScriptNodeKind) -> bool {
    kind == GDScriptNodeKind::EnumeratorList || kind == GDScriptNodeKind::Dictionary
}

/// A comma that only appears where the container breaks.
pub open spec fn trailing_comma() -> Seq<Doc> {
    if_multiline(fixed(","@))
}

/// True where a trailing comma is inserted in front of a comment: the comment
/// is the last thing in the container, and stands behind an element without a
/// comma.
pub open spec fn inserts_comma_before(input: ParseInput, node: int, index: int) -> bool {
    &&& 1 < index == input.tree.child_count_of(node) - 2
    &&& input.tree.child_kind_of(node, index) == GDScriptNodeKind::Comment
    &&& input.tree.child_kind_of(node, index - 1) != GDScriptNodeKind::TokenComma
    &&& input.tree.child_kind_of(node, index - 1) != GDScriptNodeKind::Comment
}

/// What separates an element of a container from what stands before it. Behind
/// a comma, `after_comma_docs` has that role already.
pub open spec fn element_separator_docs(input: ParseInput, node: int, index: int) -> Seq<Doc> {
    if index <= 1 || inserts_comma_before(input, node, index) || input.tree.child_kind_of(
        node,
        index - 1,
    ) == GDScriptNodeKind::TokenComma {
        nothing()
    } else if input.tree.child_kind_of(node, index - 1) == GDScriptNodeKind::Comment {
        hard_line()
    } else {
        separator_docs(
            input,
            input.tree.kind_of(node),
            input.tree.child_of(node, index - 1),
            input.tree.child_of(node, index),
        )
    }
}

/// What stands behind a comma: a possible line break, or what keeps a comment
/// on its line.
pub open spec fn after_comma_docs(input: ParseInput, node: int, index: int) -> Seq<Doc> {
    if input.tree.child_kind_of(node, index) != GDScriptNodeKind::TokenComma {
        nothing()
    } else if input.tree.child_kind_of(node, index + 1) != GDScriptNodeKind::Comment {
        soft_line() + space_single_line_only()
    } else if starts_on_new_line(input, node, index + 1) {
        hard_line()
    } else {
        space()
    }
}

/// One element of a container, or a comma or comment in it, with what stands
/// around it. A blank line in front of an element is kept.
pub open spec fn element_docs(input: ParseInput, node: int, index: int) -> Seq<Doc>
    decreases input.tree.size() - node, 2int, 0int,
{
    (if inserts_comma_before(input, node, index) {
        trailing_comma() + space()
    } else {
        nothing()
    }) + element_separator_docs(input, node, index) + (if index > 1 && input.tree.child_kind_of(
        node,
        index,
    ) != GDScriptNodeKind::Comment && newlines_before_child(input, node, index) > 1 {
        blank_line()
    } else {
        nothing()
    }) + child_docs(input, node, index) + after_comma_docs(input, node, index)
}

/// True of the trailing comma of a container.
pub open spec fn is_trailing_comma(input: ParseInput, node: int, index: int) -> bool {
    index == input.tree.child_count_of(node) - 2 && input.tree.child_kind_of(node, index)
        == GDScriptNodeKind::TokenComma
}

/// What stands between the delimiters of a container, from `index` on. A
/// trailing comma is left out, as the layout decides whether there is one.
pub open spec fn elements_from(input: ParseInput, node: int, index: int) -> Seq<Doc>
    decreases input.tree.size() - node, 10int, input.tree.child_count_of(node) - index,
{
    if index >= input.tree.child_count_of(node) - 1 || is_trailing_comma(input, node, index) {
        nothing()
    } else {
        element_docs(input, node, index) + elements_from(input, node, index + 1)
    }
}

/// True where the last thing in a container, but for a trailing comma, is a
/// comment.
pub open spec fn ends_with_comment(input: ParseInput, node: int) -> bool {
    let count = input.tree.child_count_of(node);
    let last = if is_trailing_comma(input, node, count - 2) {
        count - 3
    } else {
        count - 2
    };
    last >= 1 && input.tree.child_kind_of(node, last) == GDScriptNodeKind::Comment
}

/// True of a container whose only element is a lambda.
pub open spec fn is_single_lambda(input: ParseInput, node: int) -> bool {
    input.tree.child_count_of(node) == 3 && input.tree.child_kind_of(node, 1)
        == GDScriptNodeKind::Lambda
}

/// True of a single lambda behind which a comma has to stand where the
/// container breaks. An argument that ends with a `match` statement is the
/// exception, as the comma would end up in its last branch.
pub open spec fn lambda_needs_trailing_comma(input: ParseInput, node: int) -> bool {
    is_single_lambda(input, node) && (input.tree.kind_of(node) == GDScriptNodeKind::Array
        || input.tree.kind_of(node) == GDScriptNodeKind::Arguments && !lambda_ends_with_match(
        *input.tree,
        input.tree.child_of(node, 1),
    ))
}

/// True where a trailing comma is written that only appears where the container
/// breaks.
pub open spec fn writes_trailing_comma(input: ParseInput, node: int) -> bool {
    let count = input.tree.child_count_of(node);
    &&& count >= 4 || lambda_needs_trailing_comma(input, node)
    &&& !inserts_comma_before(input, node, count - 2)
    &&& !ends_with_comment(input, node)
    &&& !(is_single_lambda(input, node) && lambda_ends_with_comment(
        *input.tree,
        input.tree.child_of(node, 1),
    ))
}

/// What stands behind the elements of a container. Enums always break and have
/// a comma behind their only member, and lambdas make the container around them
/// break.
#[verifier::opaque]
pub open spec fn after_elements_docs(input: ParseInput, node: int) -> Seq<Doc> {
    let count = input.tree.child_count_of(node);
    let is_enum = input.tree.kind_of(node) == GDScriptNodeKind::EnumeratorList;
    (if writes_trailing_comma(input, node) {
        trailing_comma()
    } else {
        nothing()
    }) + (if is_enum && count < 4 && input.tree.child_kind_of(node, 1)
        != GDScriptNodeKind::Comment {
        fixed(","@)
    } else {
        nothing()
    }) + (if is_enum || any_child_contains_lambda(*input.tree, node, 1, count - 1) {
        force_break()
    } else {
        nothing()
    })
}

/// A container with its delimiters.
pub open spec fn container_contents(input: ParseInput, node: int) -> Seq<Doc>
    decreases input.tree.size() - node, 14int, 0int,
{
    let count = input.tree.child_count_of(node);
    let inner_space = if has_inner_space(input.tree.kind_of(node)) {
        space_single_line_only()
    } else {
        nothing()
    };
    child_docs(input, node, 0) + inner_space + soft_line() + indented(
        1,
        elements_from(input, node, 1) + after_elements_docs(input, node),
    ) + (if first_child_of_kind(
        *input.tree,
        node,
        1,
        count - 1,
        GDScriptNodeKind::Comment,
    ) is Some {
        hard_line()
    } else {
        soft_line()
    }) + inner_space + child_docs(input, node, count - 1)
}

/// A container. An empty one stays on one line, and the parameters of a
/// function break together with the rest of its header.
pub open spec fn container_docs(input: ParseInput, node: int) -> Seq<Doc>
    decreases input.tree.size() - node, 15int, 0int,
{
    let count = input.tree.child_count_of(node);
    let kind = input.tree.kind_of(node);
    if count < 3 {
        (if count > 0 {
            child_docs(input, node, 0)
        } else {
            nothing()
        }) + (if has_inner_space(kind) {
            space()
        } else {
            nothing()
        }) + (if count > 1 {
            child_docs(input, node, 1)
        } else {
            nothing()
        })
    } else if kind == GDScriptNodeKind::Parameters && parent_is(
        *input.tree,
        node,
        GDScriptNodeKind::Function,
    ) {
        container_contents(input, node)
    } else {
        grouped(container_contents(input, node))
    }
}

/// Writes one element of a container, with what stands around it.
fn process_element(input: &ParseInput, node: usize, index: usize, writer: &mut ElementWriter)
    requires
        input.tree_fits(),
        input.tree.has(node as int),
        1 <= index < input.tree.child_count_of(node as int) - 1,
        old(writer).wf(),
    ensures
        wrote(*old(writer), *final(writer), element_docs(*input, node as int, index as int)),
    decreases input.tree.size() - node, 2int, 0int,
{
    let count: usize = input.tree.child_count(node);
    let child_kind = input.tree.child_kind(node, index);
    let previous_kind = if index > 1 {
        input.tree.child_kind(node, index - 1)
    } else {
        GDScriptNodeKind::Other
    };
    let inserts_comma = index > 1 && child_kind == GDScriptNodeKind::Comment && index == count - 2
        && previous_kind != GDScriptNodeKind::TokenComma && previous_kind
        != GDScriptNodeKind::Comment;
    if inserts_comma {
        let branch = writer.begin(SpanKind::MultilineBranch);
        writer.push_fixed(",");
        writer.finish(branch);
        writer.push_space();
    }
    if index > 1 && !inserts_comma && previous_kind != GDScriptNodeKind::TokenComma {
        if previous_kind == GDScriptNodeKind::Comment {
            writer.push_hard_line();
        } else {
            process_separator(input, node, input.kind(node), index, writer);
        }
    }
    if index > 1 && child_kind != GDScriptNodeKind::Comment && count_newlines_before_child(
        input,
        node,
        index,
    ) > 1 {
        writer.push_blank_line();
    }
    process_child(input, node, index, writer);
    if child_kind == GDScriptNodeKind::TokenComma {
        if input.tree.child_kind(node, index + 1) == GDScriptNodeKind::Comment {
            if child_starts_on_new_line(input, node, index + 1) {
                writer.push_hard_line();
            } else {
                writer.push_space();
            }
        } else {
            writer.push_soft_line();
            writer.push_space_single_line_only();
        }
    }
}

/// Writes what stands between the delimiters of a container.
fn process_elements(input: &ParseInput, node: usize, writer: &mut ElementWriter)
    requires
        input.tree_fits(),
        input.tree.has(node as int),
        input.tree.child_count_of(node as int) >= 3,
        old(writer).wf(),
    ensures
        wrote(*old(writer), *final(writer), elements_from(*input, node as int, 1)),
    decreases input.tree.size() - node, 10int, 0int,
{
    let ghost total = elements_from(*input, node as int, 1);
    let count: usize = input.tree.child_count(node);
    let end: usize = if input.tree.child_kind(node, count - 2) == GDScriptNodeKind::TokenComma {
        count - 2
    } else {
        count - 1
    };
    let mut index: usize = 1;
    while index < end
        invariant
            1 <= index <= end,
            count == input.tree.child_count_of(node as int),
            count >= 3,
            end == if is_trailing_comma(*input, node as int, count - 2) {
                count - 2
            } else {
                count - 1
            },
            input.tree_fits(),
            input.tree.has(node as int),
            is_writing(
                *old(writer),
                *writer,
                elements_from(*input, node as int, index as int),
                total,
            ),
        decreases end - index,
    {
        process_element(input, node, index, writer);
        index = index + 1;
    }
}

/// Writes what stands behind the elements of a container.
fn process_after_elements(input: &ParseInput, node: usize, writer: &mut ElementWriter)
    requires
        input.tree_fits(),
        input.tree.has(node as int),
        input.tree.child_count_of(node as int) >= 3,
        old(writer).wf(),
    ensures
        wrote(*old(writer), *final(writer), after_elements_docs(*input, node as int)),
{
    proof {
        reveal(after_elements_docs);
        input.tree.lemma_child(node as int, 1);
    }
    let node_kind = input.kind(node);
    let count: usize = input.tree.child_count(node);
    let last_kind = input.tree.child_kind(node, count - 2);
    let before_last_kind = if count > 3 {
        input.tree.child_kind(node, count - 3)
    } else {
        GDScriptNodeKind::Other
    };
    let last_was_comment = if last_kind == GDScriptNodeKind::TokenComma {
        before_last_kind == GDScriptNodeKind::Comment
    } else {
        last_kind == GDScriptNodeKind::Comment
    };
    let trailing_comma_handled = count > 3 && last_kind == GDScriptNodeKind::Comment
        && before_last_kind
        != GDScriptNodeKind::TokenComma && before_last_kind != GDScriptNodeKind::Comment;
    let first: usize = input.tree.child(node, 1);
    // More than a single element without a comma behind it.
    let contains_more_than_one_element = count >= 4;
    let is_single_lambda = count == 3 && input.kind(first) == GDScriptNodeKind::Lambda;
    let needs_lambda_trailing_comma = is_single_lambda && (node_kind == GDScriptNodeKind::Array
        || (node_kind == GDScriptNodeKind::Arguments && !lambda_ends_with_match_node(
        input.tree,
        first,
    )));
    let lambda_has_trailing_comment = is_single_lambda && is_lambda_body_ending_with_comment(
        input.tree,
        first,
    );
    if (contains_more_than_one_element || needs_lambda_trailing_comma) && !trailing_comma_handled
        && !last_was_comment && !lambda_has_trailing_comment {
        let branch = writer.begin(SpanKind::MultilineBranch);
        writer.push_fixed(",");
        writer.finish(branch);
    }
    let is_enum = node_kind == GDScriptNodeKind::EnumeratorList;
    if is_enum && !contains_more_than_one_element && last_kind != GDScriptNodeKind::Comment {
        writer.push_fixed(",");
    }
    if is_enum || has_child_with_lambda(input.tree, node, 1, count - 1) {
        writer.push_force_break();
    }
}

/// Writes a container.
pub fn process_container(input: &ParseInput, node: usize, writer: &mut ElementWriter)
    requires
        input.tree_fits(),
        input.tree.has(node as int),
        old(writer).wf(),
    ensures
        wrote(*old(writer), *final(writer), container_docs(*input, node as int)),
    decreases input.tree.size() - node, 15int, 0int,
{
    let node_kind = input.kind(node);
    let count: usize = input.tree.child_count(node);
    let needs_inner_space = node_kind == GDScriptNodeKind::EnumeratorList || node_kind
        == GDScriptNodeKind::Dictionary;
    if count < 3 {
        if count > 0 {
            process_child(input, node, 0, writer);
        }
        if needs_inner_space {
            writer.push_space();
        }
        if count > 1 {
            process_child(input, node, 1, writer);
        }
        return ;
    }
    if node_kind == GDScriptNodeKind::Parameters && has_parent_of_kind(
        input.tree,
        node,
        GDScriptNodeKind::Function,
    ) {
        process_container_contents(input, node, writer);
    } else {
        let group = writer.begin_group();
        process_container_contents(input, node, writer);
        writer.finish(group);
    }
}

/// Writes a container with its delimiters.
fn process_container_contents(input: &ParseInput, node: usize, writer: &mut ElementWriter)
    requires
        input.tree_fits(),
        input.tree.has(node as int),
        input.tree.child_count_of(node as int) >= 3,
        old(writer).wf(),
    ensures
        wrote(*old(writer), *final(writer), container_contents(*input, node as int)),
    decreases input.tree.size() - node, 14int, 0int,
{
    let node_kind = input.kind(node);
    let count: usize = input.tree.child_count(node);
    let needs_inner_space = node_kind == GDScriptNodeKind::EnumeratorList || node_kind
        == GDScriptNodeKind::Dictionary;
    process_child(input, node, 0, writer);
    if needs_inner_space {
        writer.push_space_single_line_only();
    }
    writer.push_soft_line();
    let indent = writer.begin_indent(1);
    process_elements(input, node, writer);
    process_after_elements(input, node, writer);
    writer.finish(indent);
    if find_child_of_kind(input.tree, node, 1, count - 1, GDScriptNodeKind::Comment).is_some() {
        writer.push_hard_line();
    } else {
        writer.push_soft_line();
    }
    if needs_inner_space {
        writer.push_space_single_line_only();
    }
    process_child(input, node, count - 1, writer);
}

} // verus!
