//! Lays out blocks of statements, and the lambdas that hold them.
use vstd::prelude::*;

use crate::document::{
    blank_line, blank_lines, fixed, force_break, group_concat, grouped, hard_line, if_single_line,
    indented, nothing, soft_line, space, unformatted, Doc,
};
use crate::formatter::nodes::{child_docs, process_child};
use crate::formatter::queries::{
    annotations_lead_definition, block_leads_definition, comment_block_leads_definition,
    count_newlines_before_child, has_child, has_child_of_kind, has_own_annotations_child,
    has_parent_of_kind, is_lambda_body_ending_with_comment, lambda_ends_with_comment,
    lambda_ends_with_match, lambda_ends_with_match_node, newlines_before_child,
    next_declaration_after_annotations_needs_two_blank_lines, parent_is,
    previous_block_follows_definition, previous_comment_block_follows_definition,
};
use crate::formatter::regions::{
    classify_disabled_region_overlap, overlap, DisabledRegionOverlapKind, Overlap,
};
use crate::formatter::rules::{is_declaration, needs_two_blank_lines};
use crate::formatter::separators::{
    add_spacing_between_body_children, body_spacing_docs, lambda_separator_docs, newlines_docs,
    process_lambda_separator, push_separator_for_newline_count,
};
use crate::node_kind::GDScriptNodeKind;
use crate::parser::ParseInput;
use crate::syntax_tree::SyntaxTree;
use crate::text::{contains_newline, has_newline};
use crate::writer::{is_writing, wrote, ElementWriter, SpanKind};

verus! {

broadcast use group_concat;

/// True where a newline stands between a child and the one before it.
pub open spec fn starts_on_new_line(input: ParseInput, node: int, index: int) -> bool {
    contains_newline(
        input.bytes(),
        input.tree.end_of(input.tree.child_of(node, index - 1)),
        input.tree.start_of(input.tree.child_of(node, index)),
    )
}

/// Tells whether a newline stands between a child and the one before it.
pub fn child_starts_on_new_line(input: &ParseInput, node: usize, index: usize) -> (found: bool)
    requires
        input.tree_fits(),
        input.tree.has(node as int),
        0 < index < input.tree.child_count_of(node as int),
    ensures
        found == starts_on_new_line(*input, node as int, index as int),
{
    proof {
        input.lemma_siblings(node as int, index - 1, index as int);
    }
    has_newline(
        input.source,
        input.tree.end_byte(input.tree.child(node, index - 1)),
        input.tree.start_byte(input.tree.child(node, index)),
    )
}

/// True where a child of a body is a definition, or leads one as a comment or
/// an annotation.
pub open spec fn leads_definition(input: ParseInput, node: int, index: int) -> bool {
    let kind = input.tree.child_kind_of(node, index);
    if kind == GDScriptNodeKind::Annotation {
        annotations_lead_definition(*input.tree, node, index + 1)
    } else if kind == GDScriptNodeKind::Comment {
        block_leads_definition(input, node, index)
    } else {
        needs_two_blank_lines(kind)
    }
}

/// True where the blank lines of a definition stand between two declarations of
/// a body. In a class they also stand behind a definition, but not in front of
/// a comment that belongs to it.
pub open spec fn definition_starts_or_ends(input: ParseInput, node: int, index: int) -> bool {
    let leads = leads_definition(input, node, index);
    if input.tree.kind_of(node) == GDScriptNodeKind::ClassBody {
        leads || input.tree.child_kind_of(node, index) != GDScriptNodeKind::Comment
            && needs_two_blank_lines(input.tree.child_kind_of(node, index - 1))
    } else {
        leads
    }
}

/// What separates a child of a body from the one before it.
/// `follows_inline_comment` is true where a comment on the line of a statement
/// stands in front of the child.
#[verifier::opaque]
pub open spec fn body_gap_docs(
    input: ParseInput,
    node: int,
    index: int,
    follows_inline_comment: bool,
) -> Seq<Doc> {
    let previous = input.tree.child_kind_of(node, index - 1);
    let current = input.tree.child_kind_of(node, index);
    let newlines = newlines_before_child(input, node, index);
    if previous == GDScriptNodeKind::SemiColon {
        if newlines >= 2 {
            blank_line() + blank_line()
        } else {
            nothing()
        }
    } else if previous == GDScriptNodeKind::Annotation {
        if starts_on_new_line(input, node, index) && (current == GDScriptNodeKind::Annotation
            || current == GDScriptNodeKind::Comment || !is_declaration(current)
            || has_child_of_kind(
            *input.tree,
            input.tree.child_of(node, index),
            GDScriptNodeKind::Annotations,
        )) {
            hard_line()
        } else {
            space()
        }
    } else if previous == GDScriptNodeKind::Comment {
        if current == GDScriptNodeKind::Comment {
            if block_leads_definition(input, node, index) && previous_block_follows_definition(
                input,
                node,
                index,
            ) {
                blank_lines(input.blank_lines_around_definitions as int)
            } else {
                body_spacing_docs(input, newlines, previous, current, false)
            }
        } else if follows_inline_comment {
            body_spacing_docs(input, newlines, previous, current, needs_two_blank_lines(current))
        } else {
            hard_line()
        }
    } else if is_declaration(previous) && is_declaration(current) {
        body_spacing_docs(
            input,
            newlines,
            previous,
            current,
            definition_starts_or_ends(input, node, index),
        )
    } else {
        newlines_docs(newlines)
    }
}

/// Writes what separates a child of a body from the one before it.
pub fn process_body_gap(
    input: &ParseInput,
    node: usize,
    index: usize,
    follows_inline_comment: bool,
    writer: &mut ElementWriter,
)
    requires
        input.tree_fits(),
        input.tree.has(node as int),
        0 < index < input.tree.child_count_of(node as int),
        old(writer).wf(),
    ensures
        wrote(
            *old(writer),
            *final(writer),
            body_gap_docs(*input, node as int, index as int, follows_inline_comment),
        ),
{
    proof {
        reveal(body_gap_docs);
        input.lemma_siblings(node as int, index - 1, index as int);
    }
    let count: usize = input.tree.child_count(node);
    assert(index < count);
    let previous: usize = input.tree.child(node, index - 1);
    let child: usize = input.tree.child(node, index);
    let previous_kind = input.kind(previous);
    let current_kind = input.kind(child);
    let previous_end: usize = input.tree.end_byte(previous);
    let child_start: usize = input.tree.start_byte(child);
    if previous_kind == GDScriptNodeKind::SemiColon {
        if count_newlines_before_child(input, node, index) >= 2 {
            writer.push_blank_line();
            writer.push_blank_line();
        }
    } else if previous_kind == GDScriptNodeKind::Annotation {
        if current_kind != GDScriptNodeKind::Annotation && current_kind != GDScriptNodeKind::Comment
            && is_declaration(current_kind) && !has_own_annotations_child(input.tree, child) {
            writer.push_space();
        } else if child_starts_on_new_line(input, node, index) {
            writer.push_hard_line();
        } else {
            writer.push_space();
        }
    } else if previous_kind == GDScriptNodeKind::Comment {
        if current_kind == GDScriptNodeKind::Comment {
            if comment_block_leads_definition(input, node, index)
                && previous_comment_block_follows_definition(input, node, index) {
                writer.push_blank_lines(input.blank_lines_around_definitions);
            } else {
                add_spacing_between_body_children(
                    input,
                    previous_end,
                    child_start,
                    previous_kind,
                    current_kind,
                    false,
                    writer,
                );
            }
        } else if follows_inline_comment {
            add_spacing_between_body_children(
                input,
                previous_end,
                child_start,
                previous_kind,
                current_kind,
                needs_two_blank_lines(current_kind),
                writer,
            );
        } else {
            writer.push_hard_line();
        }
    } else if is_declaration(previous_kind) && is_declaration(current_kind) {
        let target_needs_two_blank_lines = if current_kind == GDScriptNodeKind::Annotation {
            next_declaration_after_annotations_needs_two_blank_lines(input.tree, node, index + 1)
        } else if current_kind == GDScriptNodeKind::Comment {
            comment_block_leads_definition(input, node, index)
        } else {
            needs_two_blank_lines(current_kind)
        };
        let needs_two = if input.kind(node) == GDScriptNodeKind::ClassBody {
            if current_kind == GDScriptNodeKind::Comment && !target_needs_two_blank_lines {
                false
            } else {
                needs_two_blank_lines(previous_kind) || target_needs_two_blank_lines
            }
        } else {
            target_needs_two_blank_lines
        };
        add_spacing_between_body_children(
            input,
            previous_end,
            child_start,
            previous_kind,
            current_kind,
            needs_two,
            writer,
        );
    } else {
        let newline_count: usize = count_newlines_before_child(input, node, index);
        push_separator_for_newline_count(newline_count, writer);
    }
}

/// True where a comment on the line of a statement stands in front of what
/// follows a child of a body.
pub open spec fn inline_comment_after(
    input: ParseInput,
    node: int,
    index: int,
    follows_inline_comment: bool,
) -> bool {
    input.tree.child_kind_of(node, index) == GDScriptNodeKind::Comment && if index > 0 {
        !starts_on_new_line(input, node, index)
    } else {
        follows_inline_comment
    }
}

/// The index of the first of the comments that the first `to` children end with.
/// Where they do not end with a comment, `to`.
pub open spec fn trailing_comments_start(tree: SyntaxTree, node: int, to: int) -> int
    decreases to,
{
    if to > 0 && tree.child_kind_of(node, to - 1) == GDScriptNodeKind::Comment {
        trailing_comments_start(tree, node, to - 1)
    } else {
        to
    }
}

/// Finds the first of the comments that a node ends with.
fn find_trailing_comments(tree: &SyntaxTree, node: usize) -> (start: usize)
    requires
        tree.is_linked(),
        tree.has(node as int),
    ensures
        start == trailing_comments_start(*tree, node as int, tree.child_count_of(node as int)),
{
    let mut start: usize = tree.child_count(node);
    while start > 0 && tree.child_kind(node, start - 1) == GDScriptNodeKind::Comment
        invariant
            start <= tree.child_count_of(node as int),
            tree.is_linked(),
            tree.has(node as int),
            trailing_comments_start(*tree, node as int, tree.child_count_of(node as int))
                == trailing_comments_start(*tree, node as int, start as int),
        decreases start,
    {
        start = start - 1;
    }
    start
}

/// A comma, in front of the comments at the end of the body of a lambda that is
/// the only element around it. It stands directly behind the last statement, so
/// that it does not become a part of a comment.
pub open spec fn body_comma_docs(
    input: ParseInput,
    node: int,
    index: int,
    adds_comma: bool,
) -> Seq<Doc> {
    if adds_comma && index == trailing_comments_start(
        *input.tree,
        node,
        input.tree.child_count_of(node),
    ) {
        fixed(","@)
    } else {
        nothing()
    }
}

/// The children of a body from `index` on, with what separates them. A
/// semicolon becomes a line break, and what a disabled region covers is copied
/// as it is.
pub open spec fn body_from(
    input: ParseInput,
    node: int,
    index: int,
    follows_inline_comment: bool,
    adds_comma: bool,
) -> Seq<Doc>
    decreases input.tree.size() - node, 10int, input.tree.children_left(node, index),
{
    if index >= input.tree.child_count_of(node) {
        nothing()
    } else {
        match overlap(input, node, index) {
            Overlap::Covered { region, following } => (if input.tree.start_of(
                input.tree.child_of(node, index),
            ) == region.start {
                body_comma_docs(input, node, index, adds_comma) + (if index > 0 {
                    newlines_docs(newlines_before_child(input, node, index))
                } else {
                    nothing()
                }) + unformatted(region.start as int, region.end as int)
            } else {
                nothing()
            }) + body_from(input, node, index + following + 1, false, adds_comma),
            Overlap::Partial => child_docs(input, node, index) + body_from(
                input,
                node,
                index + 1,
                false,
                adds_comma,
            ),
            Overlap::Clear => if input.tree.child_kind_of(node, index)
                == GDScriptNodeKind::SemiColon {
                hard_line() + body_from(
                    input,
                    node,
                    index + 1,
                    follows_inline_comment,
                    adds_comma,
                )
            } else {
                body_comma_docs(input, node, index, adds_comma) + (if index > 0 {
                    body_gap_docs(input, node, index, follows_inline_comment)
                } else {
                    nothing()
                }) + child_docs(input, node, index) + body_from(
                    input,
                    node,
                    index + 1,
                    inline_comment_after(input, node, index, follows_inline_comment),
                    adds_comma,
                )
            },
        }
    }
}

/// A body: its children, indented.
pub open spec fn body_docs(input: ParseInput, node: int, adds_comma: bool) -> Seq<Doc>
    decreases input.tree.size() - node, 15int, 0int,
{
    indented(1, body_from(input, node, 0, false, adds_comma))
}

/// Writes the body of a function, a class or a `match` statement.
#[verifier::rlimit(40)]
pub fn process_body(
    input: &ParseInput,
    node: usize,
    do_add_comma_before_trailing_comment: bool,
    writer: &mut ElementWriter,
)
    requires
        input.tree_fits(),
        input.tree.has(node as int),
        old(writer).wf(),
    ensures
        wrote(
            *old(writer),
            *final(writer),
            body_docs(*input, node as int, do_add_comma_before_trailing_comment),
        ),
    decreases input.tree.size() - node, 15int, 0int,
{
    let ghost total = body_from(
        *input,
        node as int,
        0,
        false,
        do_add_comma_before_trailing_comment,
    );
    let indent = writer.begin_indent(1);
    let ghost inner = *writer;
    let count: usize = input.tree.child_count(node);
    let trailing_comments: usize = find_trailing_comments(input.tree, node);
    let mut index: usize = 0;
    let mut statement_has_inline_comment = false;
    while index < count
        invariant
            index <= count == input.tree.child_count_of(node as int),
            trailing_comments == trailing_comments_start(*input.tree, node as int, count as int),
            input.tree_fits(),
            input.tree.has(node as int),
            is_writing(
                inner,
                *writer,
                body_from(
                    *input,
                    node as int,
                    index as int,
                    statement_has_inline_comment,
                    do_add_comma_before_trailing_comment,
                ),
                total,
            ),
        decreases count - index,
    {
        proof {
            input.tree.lemma_child(node as int, index as int);
        }
        let child: usize = input.tree.child(node, index);
        let child_kind = input.kind(child);
        match classify_disabled_region_overlap(input, node, index) {
            DisabledRegionOverlapKind::CoveredFully(span) => {
                if input.tree.start_byte(child) == span.region.start {
                    if do_add_comma_before_trailing_comment && index == trailing_comments {
                        writer.push_fixed(",");
                    }
                    if index > 0 {
                        let newline_count: usize = count_newlines_before_child(input, node, index);
                        push_separator_for_newline_count(newline_count, writer);
                    }
                    writer.push_unformatted(span.region.start, span.region.end);
                }
                statement_has_inline_comment = false;
                index = span.last_covered_index + 1;
            },
            DisabledRegionOverlapKind::PartiallyCovered => {
                // The first bytes of the child are part of the text of a
                // region, and what follows them is up to its children.
                process_child(input, node, index, writer);
                statement_has_inline_comment = false;
                index = index + 1;
            },
            DisabledRegionOverlapKind::NotCovered => {
                if child_kind == GDScriptNodeKind::SemiColon {
                    writer.push_hard_line();
                    index = index + 1;
                } else {
                    if do_add_comma_before_trailing_comment && index == trailing_comments {
                        writer.push_fixed(",");
                    }
                    if index > 0 {
                        process_body_gap(input, node, index, statement_has_inline_comment, writer);
                    }
                    process_child(input, node, index, writer);
                    if child_kind == GDScriptNodeKind::Comment {
                        if index > 0 {
                            statement_has_inline_comment =
                            !child_starts_on_new_line(input, node, index);
                        }
                    } else {
                        statement_has_inline_comment = false;
                    }
                    index = index + 1;
                }
            },
        }
    }
    writer.finish(indent);
}

/// True of a lambda that is the only element of an array or an argument list
/// and whose body ends with a comment, so that a comma has to stand in front of
/// that comment. A lambda that ends with a `match` statement gets no comma, as
/// it would not parse.
pub open spec fn lambda_adds_comma(tree: SyntaxTree, node: int) -> bool {
    tree.parent_of(node) matches Some(parent) && {
        let parent = parent as int;
        &&& tree.kind_of(parent) == GDScriptNodeKind::Array || tree.kind_of(parent)
            == GDScriptNodeKind::Arguments
        &&& tree.child_count_of(parent) == 3
        &&& tree.child_of(parent, 1) == node
        &&& !lambda_ends_with_match(tree, node)
        &&& lambda_ends_with_comment(tree, node)
    }
}

/// Tells whether a comma has to stand in front of the comment at the end of a
/// lambda.
pub fn lambda_needs_comma_before_comment(tree: &SyntaxTree, node: usize) -> (needs: bool)
    requires
        tree.is_linked(),
        tree.has(node as int),
    ensures
        needs == lambda_adds_comma(*tree, node as int),
{
    proof {
        tree.lemma_links(node as int);
    }
    match tree.parent(node) {
        Some(parent) => matches!(
            tree.kind(parent),
            GDScriptNodeKind::Array | GDScriptNodeKind::Arguments
        ) && tree.child_count(parent) == 3 && tree.child(parent, 1) == node
            && !lambda_ends_with_match_node(tree, node) && is_lambda_body_ending_with_comment(
            tree,
            node,
        ),
        None => false,
    }
}

/// The children of a lambda from `index` on, with what separates them.
pub open spec fn lambda_from(input: ParseInput, node: int, index: int) -> Seq<Doc>
    decreases input.tree.size() - node, 10int, input.tree.children_left(node, index),
{
    if index >= input.tree.child_count_of(node) {
        nothing()
    } else {
        let child = input.tree.child_of(node, index);
        let current = input.tree.kind_of(child);
        let previous = input.tree.child_kind_of(node, index - 1);
        (if index == 0 {
            nothing()
        } else if current == GDScriptNodeKind::Body && previous == GDScriptNodeKind::TokenColon {
            soft_line() + if_single_line(space())
        } else {
            lambda_separator_docs(previous, current)
        }) + (if current == GDScriptNodeKind::Body && lambda_adds_comma(*input.tree, node) && node
            < child < input.tree.size() {
            body_docs(input, child, true)
        } else {
            child_docs(input, node, index)
        }) + lambda_from(input, node, index + 1)
    }
}

/// A lambda: a group that always breaks if the lambda has a body.
pub open spec fn lambda_docs(input: ParseInput, node: int) -> Seq<Doc>
    decreases input.tree.size() - node, 15int, 0int,
{
    let has_body = has_child_of_kind(*input.tree, node, GDScriptNodeKind::Body);
    if input.tree.child_count_of(node) == 0 {
        nothing()
    } else {
        grouped(
            lambda_from(input, node, 0) + (if has_body {
                force_break()
            } else {
                nothing()
            }) + (if has_body && parent_is(
                *input.tree,
                node,
                GDScriptNodeKind::ParenthesizedExpression,
            ) {
                hard_line()
            } else {
                nothing()
            }),
        )
    }
}

/// Writes a lambda.
pub fn process_lambda(input: &ParseInput, node: usize, writer: &mut ElementWriter)
    requires
        input.tree_fits(),
        input.tree.has(node as int),
        old(writer).wf(),
    ensures
        wrote(*old(writer), *final(writer), lambda_docs(*input, node as int)),
    decreases input.tree.size() - node, 15int, 0int,
{
    let count: usize = input.tree.child_count(node);
    if count == 0 {
        return ;
    }
    let ghost total = lambda_from(*input, node as int, 0);
    let group = writer.begin_group();
    let ghost inner = *writer;
    let adds_comma = lambda_needs_comma_before_comment(input.tree, node);
    let mut index: usize = 0;
    while index < count
        invariant
            index <= count == input.tree.child_count_of(node as int),
            adds_comma == lambda_adds_comma(*input.tree, node as int),
            input.tree_fits(),
            input.tree.has(node as int),
            is_writing(
                inner,
                *writer,
                lambda_from(*input, node as int, index as int),
                total,
            ),
        decreases count - index,
    {
        proof {
            input.tree.lemma_child(node as int, index as int);
        }
        let child: usize = input.tree.child(node, index);
        let child_kind = input.kind(child);
        if index > 0 {
            let previous_kind = input.tree.child_kind(node, index - 1);
            if child_kind == GDScriptNodeKind::Body && previous_kind
                == GDScriptNodeKind::TokenColon {
                writer.push_soft_line();
                let branch = writer.begin(SpanKind::SingleLineBranch);
                writer.push_space();
                writer.finish(branch);
            } else {
                process_lambda_separator(previous_kind, child_kind, writer);
            }
        }
        if child_kind == GDScriptNodeKind::Body && adds_comma {
            process_body(input, child, true, writer);
        } else {
            process_child(input, node, index, writer);
        }
        index = index + 1;
    }
    let has_body = has_child(input.tree, node, GDScriptNodeKind::Body);
    if has_body {
        writer.push_force_break();
    }
    if has_body && has_parent_of_kind(
        input.tree,
        node,
        GDScriptNodeKind::ParenthesizedExpression,
    ) {
        writer.push_hard_line();
    }
    writer.finish(group);
}

} // verus!
