//! What stands between two siblings.
use vstd::prelude::*;

use crate::document::{
    blank_lines, group_concat, hard_and_blank_line, hard_line, nothing, space, Doc,
};
use crate::formatter::queries::{
    all_annotations_are_inline, annotations_can_inline, any_annotation_has_arguments,
    has_annotation_with_arguments,
};
use crate::formatter::rules::{
    blank_lines_before, get_blank_line_count_before_declaration, is_indented_body,
    is_opening_or_closing_token, is_variable,
};
use crate::node_kind::GDScriptNodeKind;
use crate::parser::ParseInput;
use crate::text::{count_newlines, newline_count, same_text};
use crate::writer::{wrote, ElementWriter};

verus! {

broadcast use group_concat;

/// What stands for a number of newlines: a space for none, a line break for
/// one, and a line break and an empty line for more.
pub open spec fn newlines_docs(newlines: int) -> Seq<Doc> {
    if newlines == 0 {
        space()
    } else if newlines == 1 {
        hard_line()
    } else {
        hard_and_blank_line()
    }
}

/// Writes what stands for a number of newlines.
pub fn push_separator_for_newline_count(newlines: usize, writer: &mut ElementWriter)
    requires
        old(writer).wf(),
    ensures
        wrote(*old(writer), *final(writer), newlines_docs(newlines as int)),
{
    if newlines == 0 {
        writer.push_space();
    } else if newlines == 1 {
        writer.push_hard_line();
    } else {
        writer.push_hard_and_blank_line();
    }
}

/// What stands between two children of a body that are `newlines` apart.
///
/// Children on the same line stay there. Otherwise a comment keeps its distance
/// to what follows, up to one blank line, and a definition gets the blank lines
/// that the options ask for, unless a comment stands right above it.
pub open spec fn body_spacing_docs(
    input: ParseInput,
    newlines: int,
    previous: GDScriptNodeKind,
    current: GDScriptNodeKind,
    needs_two_blank: bool,
) -> Seq<Doc> {
    let asked = blank_lines_before(input, current);
    let target = if asked == 0 {
        input.blank_lines_around_definitions
    } else {
        asked
    };
    if newlines == 0 {
        space()
    } else if previous == GDScriptNodeKind::Comment && (current == GDScriptNodeKind::Comment
        || newlines == 1) {
        if newlines == 1 {
            hard_line()
        } else {
            hard_and_blank_line()
        }
    } else if needs_two_blank {
        blank_lines(target as int)
    } else if newlines >= 2 {
        hard_and_blank_line()
    } else {
        hard_line()
    }
}

/// Writes what stands between two children of a body.
pub fn add_spacing_between_body_children(
    input: &ParseInput,
    previous_end: usize,
    current_start: usize,
    previous_kind: GDScriptNodeKind,
    current_kind: GDScriptNodeKind,
    needs_two_blank: bool,
    writer: &mut ElementWriter,
)
    requires
        previous_end <= current_start <= input.bytes().len(),
        old(writer).wf(),
    ensures
        wrote(
            *old(writer),
            *final(writer),
            body_spacing_docs(
                *input,
                newline_count(input.bytes(), previous_end as int, current_start as int) as int,
                previous_kind,
                current_kind,
                needs_two_blank,
            ),
        ),
{
    let newline_count: usize = count_newlines(input.source, previous_end, current_start);
    let current_blank_count: u16 = get_blank_line_count_before_declaration(input, current_kind);
    let target_blank_line_count: u16 = if current_blank_count == 0 {
        input.blank_lines_around_definitions
    } else {
        current_blank_count
    };
    if newline_count == 0 {
        writer.push_space();
    } else if previous_kind == GDScriptNodeKind::Comment && current_kind
        == GDScriptNodeKind::Comment {
        writer.push_hard_line();
        if newline_count != 1 {
            writer.push_blank_line();
        }
    } else if previous_kind == GDScriptNodeKind::Comment {
        if newline_count == 1 {
            writer.push_hard_line();
        } else if needs_two_blank {
            writer.push_blank_lines(target_blank_line_count);
        } else {
            writer.push_hard_and_blank_line();
        }
    } else if needs_two_blank {
        writer.push_blank_lines(target_blank_line_count);
    } else if newline_count >= 2 {
        writer.push_hard_and_blank_line();
    } else {
        writer.push_hard_line();
    }
}

/// What stands between two children of a lambda.
pub open spec fn lambda_separator_docs(
    previous: GDScriptNodeKind,
    current: GDScriptNodeKind,
) -> Seq<Doc> {
    if previous == GDScriptNodeKind::Comment {
        hard_line()
    } else if is_opening_or_closing_token(current) || current == GDScriptNodeKind::TokenColon {
        nothing()
    } else if is_indented_body(current) {
        hard_line()
    } else if current == GDScriptNodeKind::Parameters && (previous == GDScriptNodeKind::KeywordFunc
        || previous == GDScriptNodeKind::Identifier) {
        nothing()
    } else {
        space()
    }
}

/// Writes what stands between two children of a lambda.
pub fn process_lambda_separator(
    previous_kind: GDScriptNodeKind,
    current_kind: GDScriptNodeKind,
    writer: &mut ElementWriter,
)
    requires
        old(writer).wf(),
    ensures
        wrote(*old(writer), *final(writer), lambda_separator_docs(previous_kind, current_kind)),
{
    if previous_kind == GDScriptNodeKind::Comment {
        writer.push_hard_line();
    } else if is_opening_or_closing_token(current_kind) || current_kind
        == GDScriptNodeKind::TokenColon {
    } else if is_indented_body(current_kind) {
        writer.push_hard_line();
    } else if current_kind == GDScriptNodeKind::Parameters && (previous_kind
        == GDScriptNodeKind::KeywordFunc || previous_kind == GDScriptNodeKind::Identifier) {
    } else {
        writer.push_space();
    }
}

/// A line break, and an empty line where there is at least one in the source.
pub open spec fn line_break_docs(input: ParseInput, previous: int, current: int) -> Seq<Doc> {
    if input.tree.start_row_of(current) > input.tree.end_row_of(previous) + 1 {
        hard_and_blank_line()
    } else {
        hard_line()
    }
}

/// Writes a line break, and an empty line where there is at least one in the
/// source.
fn push_line_break(
    input: &ParseInput,
    previous: usize,
    current: usize,
    writer: &mut ElementWriter,
)
    requires
        input.tree.has(previous as int),
        input.tree.has(current as int),
        old(writer).wf(),
    ensures
        wrote(
            *old(writer),
            *final(writer),
            line_break_docs(*input, previous as int, current as int),
        ),
{
    let previous_end_row: usize = input.tree.end_row(previous);
    let current_start_row: usize = input.tree.start_row(current);
    writer.push_hard_line();
    if current_start_row > previous_end_row && current_start_row - previous_end_row > 1 {
        writer.push_blank_line();
    }
}

/// True where two siblings stand next to each other without a space, by their
/// kinds alone.
pub open spec fn is_joined(
    parent: GDScriptNodeKind,
    previous: GDScriptNodeKind,
    current: GDScriptNodeKind,
) -> bool {
    ||| is_opening_or_closing_token(current)
    ||| current == GDScriptNodeKind::SubscriptArguments
    ||| previous == GDScriptNodeKind::TokenDot
    ||| current == GDScriptNodeKind::TokenDot
    ||| current == GDScriptNodeKind::TokenComma
    ||| current == GDScriptNodeKind::TokenColon
    ||| (previous == GDScriptNodeKind::Identifier || previous == GDScriptNodeKind::NameInit
        || previous == GDScriptNodeKind::NameSet || previous == GDScriptNodeKind::NameGet) && (
    current == GDScriptNodeKind::Parameters || current == GDScriptNodeKind::Arguments)
    ||| previous == GDScriptNodeKind::LineContinuation
    ||| parent == GDScriptNodeKind::UnaryOperator && previous == GDScriptNodeKind::Operator
    ||| parent == GDScriptNodeKind::Lambda && previous == GDScriptNodeKind::KeywordFunc && current
        == GDScriptNodeKind::Parameters
}

/// Tells whether two siblings stand next to each other without a space.
fn siblings_are_joined(
    parent: GDScriptNodeKind,
    previous: GDScriptNodeKind,
    current: GDScriptNodeKind,
) -> (joined: bool)
    ensures
        joined == is_joined(parent, previous, current),
{
    is_opening_or_closing_token(current) || current == GDScriptNodeKind::SubscriptArguments
        || previous == GDScriptNodeKind::TokenDot || current == GDScriptNodeKind::TokenDot
        || current == GDScriptNodeKind::TokenComma || current == GDScriptNodeKind::TokenColon || ((
    previous == GDScriptNodeKind::Identifier || previous == GDScriptNodeKind::NameInit || previous
        == GDScriptNodeKind::NameSet || previous == GDScriptNodeKind::NameGet) && (current
        == GDScriptNodeKind::Parameters || current == GDScriptNodeKind::Arguments)) || previous
        == GDScriptNodeKind::LineContinuation || (parent == GDScriptNodeKind::UnaryOperator
        && previous == GDScriptNodeKind::Operator) || (parent == GDScriptNodeKind::Lambda
        && previous == GDScriptNodeKind::KeywordFunc && current == GDScriptNodeKind::Parameters)
}

/// What stands behind a list of annotations.
pub open spec fn after_annotations_docs(
    input: ParseInput,
    parent: GDScriptNodeKind,
    annotations: int,
) -> Seq<Doc> {
    if if is_variable(parent) {
        all_annotations_are_inline(input, annotations)
    } else {
        !any_annotation_has_arguments(*input.tree, annotations)
    } {
        space()
    } else {
        hard_line()
    }
}

/// What stands between two siblings.
#[verifier::opaque]
pub open spec fn separator_docs(
    input: ParseInput,
    parent: GDScriptNodeKind,
    previous: int,
    current: int,
) -> Seq<Doc> {
    let previous_kind = input.tree.kind_of(previous);
    let current_kind = input.tree.kind_of(current);
    if parent == GDScriptNodeKind::InferredType {
        nothing()
    } else if current_kind == GDScriptNodeKind::Comment {
        if input.tree.start_row_of(current) == input.tree.end_row_of(previous) {
            space()
        } else {
            line_break_docs(input, previous, current)
        }
    } else if current_kind == GDScriptNodeKind::ElifStatement || current_kind
        == GDScriptNodeKind::ElseStatement {
        line_break_docs(input, previous, current)
    } else if is_indented_body(current_kind) || current_kind == GDScriptNodeKind::SetBody
        || current_kind == GDScriptNodeKind::GetBody {
        hard_line()
    } else if current_kind == GDScriptNodeKind::SetGet || is_opening_or_closing_token(
        previous_kind,
    ) {
        nothing()
    } else if previous_kind == GDScriptNodeKind::Comment {
        hard_line()
    } else if is_joined(parent, previous_kind, current_kind) {
        nothing()
    } else if parent == GDScriptNodeKind::UnaryOperator && (input.tree.name_of(previous) == "~"@
        || input.tree.name_of(previous) == "!"@) {
        nothing()
    } else if input.tree.name_of(previous) == "@"@ {
        nothing()
    } else if previous_kind == GDScriptNodeKind::Annotations {
        after_annotations_docs(input, parent, previous)
    } else {
        space()
    }
}

/// Writes what stands between two siblings.
pub fn process_separator_between_sibling_nodes(
    input: &ParseInput,
    parent_kind: GDScriptNodeKind,
    previous: usize,
    current: usize,
    writer: &mut ElementWriter,
)
    requires
        input.tree_fits(),
        input.tree.has(previous as int),
        input.tree.has(current as int),
        old(writer).wf(),
    ensures
        wrote(
            *old(writer),
            *final(writer),
            separator_docs(*input, parent_kind, previous as int, current as int),
        ),
{
    proof {
        reveal(separator_docs);
    }
    let previous_kind = input.kind(previous);
    let current_kind = input.kind(current);
    if parent_kind == GDScriptNodeKind::InferredType {
        return ;
    }
    if current_kind == GDScriptNodeKind::Comment {
        if input.tree.start_row(current) == input.tree.end_row(previous) {
            writer.push_space();
        } else {
            push_line_break(input, previous, current, writer);
        }
        return ;
    }
    if current_kind == GDScriptNodeKind::ElifStatement || current_kind
        == GDScriptNodeKind::ElseStatement {
        push_line_break(input, previous, current, writer);
        return ;
    }
    if is_indented_body(current_kind) || current_kind == GDScriptNodeKind::SetBody || current_kind
        == GDScriptNodeKind::GetBody {
        writer.push_hard_line();
        return ;
    }
    if current_kind == GDScriptNodeKind::SetGet || is_opening_or_closing_token(previous_kind) {
        return ;
    }
    if previous_kind == GDScriptNodeKind::Comment {
        writer.push_hard_line();
        return ;
    }
    if siblings_are_joined(parent_kind, previous_kind, current_kind) {
        return ;
    }
    if parent_kind == GDScriptNodeKind::UnaryOperator && (same_text(input.tree.name(previous), "~")
        || same_text(input.tree.name(previous), "!")) {
        return ;
    }
    if same_text(input.tree.name(previous), "@") {
        return ;
    }
    if previous_kind == GDScriptNodeKind::Annotations {
        let stays_on_line = if is_variable(parent_kind) {
            annotations_can_inline(input, previous)
        } else {
            !has_annotation_with_arguments(input.tree, previous)
        };
        if stays_on_line {
            writer.push_space();
        } else {
            writer.push_hard_line();
        }
        return ;
    }
    writer.push_space();
}

} // verus!
