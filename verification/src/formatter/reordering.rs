//! Lays out the declarations of a script in the order of a plan.
use vstd::prelude::*;

use crate::document::{
    blank_lines, group_concat, hard_and_blank_line, hard_line, nothing, space, Doc,
};
use crate::formatter::nodes::{
    children_docs, node_docs, process_children_with_spacing, process_node,
};
use crate::formatter::separators::{process_separator_between_sibling_nodes, separator_docs};
use crate::node_kind::GDScriptNodeKind;
use crate::parser::ParseInput;
use crate::reorder::{DeclarationKind, ReorderItem};
use crate::text::{contains_newline, has_newline};
use crate::writer::{is_writing, wrote, ElementWriter};

verus! {

broadcast use group_concat;

/// True of the declarations that blank lines set apart.
pub open spec fn kind_is_set_apart(kind: DeclarationKind) -> bool {
    kind == DeclarationKind::Method || kind == DeclarationKind::InnerClass
}

/// True of the declarations at the top of a class.
pub open spec fn kind_is_in_header(kind: DeclarationKind) -> bool {
    kind == DeclarationKind::ClassAnnotation || kind == DeclarationKind::ClassName || kind
        == DeclarationKind::Extends || kind == DeclarationKind::Docstring
}

/// What stands between two items of the plan.
pub open spec fn item_gap_docs(
    input: ParseInput,
    previous: ReorderItem,
    current: ReorderItem,
) -> Seq<Doc> {
    if kind_is_set_apart(current.classification) {
        blank_lines(input.blank_lines_around_definitions as int)
    } else if kind_is_set_apart(previous.classification) {
        blank_lines(2)
    } else if previous.classification == current.classification {
        if current.has_blank_line_before && previous.child_index < current.child_index {
            hard_and_blank_line()
        } else {
            hard_line()
        }
    } else if kind_is_in_header(previous.classification) && kind_is_in_header(
        current.classification,
    ) {
        hard_line()
    } else {
        hard_and_blank_line()
    }
}

/// A line break where there is one in the source, or else a space.
pub open spec fn line_or_space_docs(input: ParseInput, from: int, to: int) -> Seq<Doc> {
    if contains_newline(input.bytes(), from, to) {
        hard_line()
    } else {
        space()
    }
}

/// What is attached before the declaration of an item, from `index` on, each
/// followed by what stands between it and what follows.
pub open spec fn attached_before_docs(input: ParseInput, item: ReorderItem, index: int) -> Seq<Doc>
    decreases item.child_indices_attached_before_declaration@.len() - index,
{
    if index >= item.child_indices_attached_before_declaration@.len() {
        nothing()
    } else {
        (match input.top_level(item.child_indices_attached_before_declaration@[index] as int) {
            Some(child) => node_docs(input, child) + line_or_space_docs(
                input,
                input.tree.end_of(child),
                input.after_attached(item, index),
            ),
            None => nothing(),
        }) + attached_before_docs(input, item, index + 1)
    }
}

/// The comments of a docstring from `index` on, each on a line.
pub open spec fn docstring_docs(input: ParseInput, item: ReorderItem, index: int) -> Seq<Doc>
    decreases item.child_indices_attached_before_declaration@.len() - index,
{
    if index >= item.child_indices_attached_before_declaration@.len() {
        nothing()
    } else {
        (match input.top_level(item.child_indices_attached_before_declaration@[index] as int) {
            Some(child) => node_docs(input, child) + hard_line(),
            None => nothing(),
        }) + docstring_docs(input, item, index + 1)
    }
}

/// What is attached after the declaration of an item, from `index` on.
pub open spec fn attached_after_docs(input: ParseInput, item: ReorderItem, index: int) -> Seq<Doc>
    decreases item.child_indices_attached_after_declaration@.len() - index,
{
    if index >= item.child_indices_attached_after_declaration@.len() {
        nothing()
    } else {
        (match input.top_level(item.child_indices_attached_after_declaration@[index] as int) {
            Some(child) => line_or_space_docs(
                input,
                input.item_end(item),
                input.tree.start_of(child),
            ) + node_docs(input, child),
            None => nothing(),
        }) + attached_after_docs(input, item, index + 1)
    }
}

/// A `class_name` statement without its `extends` part, from the child at
/// `index` on and behind `previous`.
pub open spec fn without_extends_docs(
    input: ParseInput,
    node: int,
    index: int,
    previous: Option<int>,
) -> Seq<Doc>
    decreases input.tree.child_count_of(node) - index,
{
    let child = input.tree.child_of(node, index);
    if index >= input.tree.child_count_of(node) {
        nothing()
    } else if input.tree.kind_of(child) == GDScriptNodeKind::Extends {
        without_extends_docs(input, node, index + 1, previous)
    } else {
        (match previous {
            Some(before) => separator_docs(input, input.tree.kind_of(node), before, child),
            None => nothing(),
        }) + node_docs(input, child) + without_extends_docs(input, node, index + 1, Some(child))
    }
}

/// The declaration of an item: all of it, one of its parts, or all but its
/// `extends` part.
pub open spec fn item_declaration_docs(input: ParseInput, item: ReorderItem) -> Seq<Doc> {
    match input.top_level(item.child_index as int) {
        Some(child) => match item.sub_child {
            Some(part) => if part < input.tree.child_count_of(child) {
                node_docs(input, input.tree.child_of(child, part as int))
            } else {
                nothing()
            },
            None => if item.split_extends {
                without_extends_docs(input, child, 0, None)
            } else {
                node_docs(input, child)
            },
        },
        None => nothing(),
    }
}

/// An item with what is attached to it.
#[verifier::opaque]
pub open spec fn item_docs(input: ParseInput, item: ReorderItem) -> Seq<Doc> {
    (if item.classification == DeclarationKind::Docstring {
        docstring_docs(input, item, 0)
    } else {
        attached_before_docs(input, item, 0) + item_declaration_docs(input, item)
    }) + attached_after_docs(input, item, 0)
}

/// The items of the plan from `index` on, with what separates them.
pub open spec fn items_from(input: ParseInput, index: int) -> Seq<Doc>
    decreases input.reorder_plan.items@.len() - index,
{
    let items = input.reorder_plan.items@;
    if index >= items.len() {
        nothing()
    } else {
        (if index > 0 {
            item_gap_docs(input, items[index - 1], items[index])
        } else {
            nothing()
        }) + item_docs(input, items[index]) + items_from(input, index + 1)
    }
}

/// A script in the order of its plan. Without any declaration there is nothing
/// to order, and nothing for annotations to be attached to.
pub open spec fn reordered_docs(input: ParseInput) -> Seq<Doc> {
    if input.reorder_plan.items@.len() == 0 {
        children_docs(input, 0)
    } else {
        items_from(input, 0)
    }
}

/// Finds a node among the children of the root.
fn find_top_level(input: &ParseInput, index: usize) -> (found: Option<usize>)
    requires
        input.tree_fits(),
    ensures
        match found {
            Some(child) => input.top_level(index as int) == Some(child as int) && input.tree.has(
                child as int,
            ),
            None => input.top_level(index as int) is None,
        },
{
    if index < input.tree.child_count(0) {
        proof {
            input.tree.lemma_child(0, index as int);
        }
        Some(input.tree.child(0, index))
    } else {
        None
    }
}

/// Writes a line break where there is one in the source, or else a space.
fn push_line_or_space(input: &ParseInput, from: usize, to: usize, writer: &mut ElementWriter)
    requires
        from <= to <= input.bytes().len(),
        old(writer).wf(),
    ensures
        wrote(*old(writer), *final(writer), line_or_space_docs(*input, from as int, to as int)),
{
    if has_newline(input.source, from, to) {
        writer.push_hard_line();
    } else {
        writer.push_space();
    }
}

/// Writes what stands between two items of the plan.
fn process_item_gap(
    input: &ParseInput,
    previous: &ReorderItem,
    current: &ReorderItem,
    writer: &mut ElementWriter,
)
    requires
        old(writer).wf(),
    ensures
        wrote(*old(writer), *final(writer), item_gap_docs(*input, *previous, *current)),
{
    let previous_is_set_apart = matches!(
        previous.classification,
        DeclarationKind::Method | DeclarationKind::InnerClass
    );
    let current_is_set_apart = matches!(
        current.classification,
        DeclarationKind::Method | DeclarationKind::InnerClass
    );
    if current_is_set_apart {
        writer.push_blank_lines(input.blank_lines_around_definitions);
    } else if previous_is_set_apart {
        writer.push_blank_lines(2);
    } else if previous.classification == current.classification {
        writer.push_hard_line();
        if current.has_blank_line_before && previous.child_index < current.child_index {
            writer.push_blank_line();
        }
    } else if matches!(
        previous.classification,
        DeclarationKind::ClassAnnotation
            | DeclarationKind::ClassName
            | DeclarationKind::Extends
            | DeclarationKind::Docstring
    ) && matches!(
        current.classification,
        DeclarationKind::ClassAnnotation
            | DeclarationKind::ClassName
            | DeclarationKind::Extends
            | DeclarationKind::Docstring
    ) {
        writer.push_hard_line();
    } else {
        writer.push_hard_and_blank_line();
    }
}

/// Writes what is attached before the declaration of an item.
fn process_attached_before(input: &ParseInput, item: &ReorderItem, writer: &mut ElementWriter)
    requires
        input.tree_fits(),
        input.item_is_in_order(*item),
        item.classification != DeclarationKind::Docstring,
        old(writer).wf(),
    ensures
        wrote(*old(writer), *final(writer), attached_before_docs(*input, *item, 0)),
{
    let ghost total = attached_before_docs(*input, *item, 0);
    let declaration_start: usize = match find_top_level(input, item.child_index) {
        Some(child) => input.tree.start_byte(child),
        None => 0,
    };
    let count: usize = item.child_indices_attached_before_declaration.len();
    let mut index: usize = 0;
    while index < count
        invariant
            index <= count == item.child_indices_attached_before_declaration@.len(),
            declaration_start == input.item_start(*item),
            input.tree_fits(),
            input.item_is_in_order(*item),
            item.classification != DeclarationKind::Docstring,
            is_writing(
                *old(writer),
                *writer,
                attached_before_docs(*input, *item, index as int),
                total,
            ),
        decreases count - index,
    {
        let child_index: usize = item.child_indices_attached_before_declaration[index];
        match find_top_level(input, child_index) {
            Some(child) => {
                process_node(input, child, writer);
                let next_start: usize = if index + 1 < count {
                    match find_top_level(
                        input,
                        item.child_indices_attached_before_declaration[index + 1],
                    ) {
                        Some(next) => {
                            proof {
                                input.lemma_node(next as int);
                            }
                            input.tree.start_byte(next)
                        },
                        None => declaration_start,
                    }
                } else {
                    declaration_start
                };
                proof {
                    assert(input.item_is_in_order(*item));
                    assert(input.top_level(
                        item.child_indices_attached_before_declaration@[index as int] as int,
                    ) == Some(child as int));
                    assert(next_start == input.after_attached(*item, index as int));
                    lemma_item_start(*input, *item);
                }
                push_line_or_space(input, input.tree.end_byte(child), next_start, writer);
            },
            None => {},
        }
        index = index + 1;
    }
}

/// The declaration of an item starts and ends inside of the source.
proof fn lemma_item_start(input: ParseInput, item: ReorderItem)
    requires
        input.tree_fits(),
    ensures
        0 <= input.item_start(item) <= input.bytes().len(),
        0 <= input.item_end(item) <= input.bytes().len(),
{
    match input.top_level(item.child_index as int) {
        Some(child) => {
            input.tree.lemma_child(0, item.child_index as int);
            input.lemma_node(child);
        },
        None => {},
    }
}

/// Writes the comments of a docstring.
fn process_docstring(input: &ParseInput, item: &ReorderItem, writer: &mut ElementWriter)
    requires
        input.tree_fits(),
        old(writer).wf(),
    ensures
        wrote(*old(writer), *final(writer), docstring_docs(*input, *item, 0)),
{
    let ghost total = docstring_docs(*input, *item, 0);
    let count: usize = item.child_indices_attached_before_declaration.len();
    let mut index: usize = 0;
    while index < count
        invariant
            index <= count == item.child_indices_attached_before_declaration@.len(),
            input.tree_fits(),
            is_writing(
                *old(writer),
                *writer,
                docstring_docs(*input, *item, index as int),
                total,
            ),
        decreases count - index,
    {
        match find_top_level(input, item.child_indices_attached_before_declaration[index]) {
            Some(child) => {
                process_node(input, child, writer);
                writer.push_hard_line();
            },
            None => {},
        }
        index = index + 1;
    }
}

/// Writes what is attached after the declaration of an item.
fn process_attached_after(input: &ParseInput, item: &ReorderItem, writer: &mut ElementWriter)
    requires
        input.tree_fits(),
        input.item_is_in_order(*item),
        old(writer).wf(),
    ensures
        wrote(*old(writer), *final(writer), attached_after_docs(*input, *item, 0)),
{
    let ghost total = attached_after_docs(*input, *item, 0);
    let declaration_end: usize = match find_top_level(input, item.child_index) {
        Some(child) => input.tree.end_byte(child),
        None => 0,
    };
    let count: usize = item.child_indices_attached_after_declaration.len();
    let mut index: usize = 0;
    while index < count
        invariant
            index <= count == item.child_indices_attached_after_declaration@.len(),
            declaration_end == input.item_end(*item),
            input.tree_fits(),
            input.item_is_in_order(*item),
            is_writing(
                *old(writer),
                *writer,
                attached_after_docs(*input, *item, index as int),
                total,
            ),
        decreases count - index,
    {
        match find_top_level(input, item.child_indices_attached_after_declaration[index]) {
            Some(child) => {
                proof {
                    assert(input.item_is_in_order(*item));
                    assert(input.top_level(
                        item.child_indices_attached_after_declaration@[index as int] as int,
                    ) == Some(child as int));
                    input.lemma_node(child as int);
                }
                push_line_or_space(input, declaration_end, input.tree.start_byte(child), writer);
                process_node(input, child, writer);
            },
            None => {},
        }
        index = index + 1;
    }
}

/// Writes a `class_name` statement without its `extends` part.
fn process_without_extends(input: &ParseInput, node: usize, writer: &mut ElementWriter)
    requires
        input.tree_fits(),
        input.tree.has(node as int),
        old(writer).wf(),
    ensures
        wrote(*old(writer), *final(writer), without_extends_docs(*input, node as int, 0, None)),
{
    let ghost total = without_extends_docs(*input, node as int, 0, None);
    let parent_kind = input.kind(node);
    let count: usize = input.tree.child_count(node);
    let mut previous: Option<usize> = None;
    let mut index: usize = 0;
    while index < count
        invariant
            index <= count == input.tree.child_count_of(node as int),
            parent_kind == input.tree.kind_of(node as int),
            input.tree_fits(),
            input.tree.has(node as int),
            previous matches Some(before) ==> input.tree.has(before as int),
            is_writing(
                *old(writer),
                *writer,
                without_extends_docs(
                    *input,
                    node as int,
                    index as int,
                    match previous {
                        Some(before) => Some(before as int),
                        None => None,
                    },
                ),
                total,
            ),
        decreases count - index,
    {
        proof {
            input.tree.lemma_child(node as int, index as int);
        }
        let child: usize = input.tree.child(node, index);
        if input.kind(child) != GDScriptNodeKind::Extends {
            match previous {
                Some(before) => {
                    process_separator_between_sibling_nodes(
                        input,
                        parent_kind,
                        before,
                        child,
                        writer,
                    );
                },
                None => {},
            }
            process_node(input, child, writer);
            previous = Some(child);
        }
        index = index + 1;
    }
}

/// Writes the declaration of an item.
fn process_item_declaration(input: &ParseInput, item: &ReorderItem, writer: &mut ElementWriter)
    requires
        input.tree_fits(),
        old(writer).wf(),
    ensures
        wrote(*old(writer), *final(writer), item_declaration_docs(*input, *item)),
{
    match find_top_level(input, item.child_index) {
        Some(child) => match item.sub_child {
            Some(part) => {
                if part < input.tree.child_count(child) {
                    proof {
                        input.tree.lemma_child(child as int, part as int);
                    }
                    process_node(input, input.tree.child(child, part), writer);
                }
            },
            None => {
                if item.split_extends {
                    process_without_extends(input, child, writer);
                } else {
                    process_node(input, child, writer);
                }
            },
        },
        None => {},
    }
}

/// Writes an item with what is attached to it.
fn process_item(input: &ParseInput, item: &ReorderItem, writer: &mut ElementWriter)
    requires
        input.tree_fits(),
        input.item_is_in_order(*item),
        old(writer).wf(),
    ensures
        wrote(*old(writer), *final(writer), item_docs(*input, *item)),
{
    proof {
        reveal(item_docs);
    }
    if item.classification == DeclarationKind::Docstring {
        process_docstring(input, item, writer);
    } else {
        process_attached_before(input, item, writer);
        process_item_declaration(input, item, writer);
    }
    process_attached_after(input, item, writer);
}

/// Writes the top level of a script in the order of its plan.
pub fn process_source_reorder(input: &ParseInput, writer: &mut ElementWriter)
    requires
        input.wf(),
        input.follows_plan(),
        old(writer).wf(),
    ensures
        wrote(*old(writer), *final(writer), reordered_docs(*input)),
{
    let items = &input.reorder_plan.items;
    if items.len() == 0 {
        process_children_with_spacing(input, 0, writer);
        return ;
    }
    let ghost total = items_from(*input, 0);
    let mut index: usize = 0;
    while index < items.len()
        invariant
            index <= items@.len(),
            *items == input.reorder_plan.items,
            input.wf(),
            input.follows_plan(),
            is_writing(*old(writer), *writer, items_from(*input, index as int), total),
        decreases items@.len() - index,
    {
        if index > 0 {
            process_item_gap(input, &items[index - 1], &items[index], writer);
        }
        proof {
            assert(input.item_is_in_order(input.reorder_plan.items@[index as int]));
        }
        process_item(input, &items[index], writer);
        index = index + 1;
    }
}

} // verus!
