//! Lays out the declarations of a script in the order of the source.
use vstd::prelude::*;

use crate::document::{
    blank_line, blank_lines, group_concat, hard_and_blank_line, hard_line, nothing, space,
    unformatted, Doc,
};
use crate::formatter::nodes::{node_docs, process_node};
use crate::formatter::queries::{is_export_or_onready_annotation, is_inline_annotation};
use crate::formatter::regions::{
    classify_disabled_region_overlap, overlap, DisabledRegionOverlapKind, Overlap,
};
use crate::formatter::reordering::{process_source_reorder, reordered_docs};
use crate::formatter::rules::{
    blank_lines_before, calculate_separator_blank_count, get_blank_line_count_before_declaration,
    is_class_header, is_region_marker, is_variable, needs_two_blank_lines, separator_blank_lines,
};
use crate::formatter::separators::{newlines_docs, push_separator_for_newline_count};
use crate::node_kind::GDScriptNodeKind;
use crate::parser::ParseInput;
use crate::text::{count_newlines, newline_count};
use crate::writer::{is_writing, wrote, ElementWriter};

verus! {

broadcast use group_concat;

/// A comment or annotation that waits for the declaration behind it.
#[derive(Clone, Copy, Debug)]
pub struct PendingNode {
    pub node: usize,
    /// The number of newlines in front of it.
    pub newlines: usize,
}

/// A comment or annotation that waits for the declaration behind it, as
/// mathematical values.
pub struct Pending {
    pub node: int,
    pub newlines: int,
}

impl View for PendingNode {
    type V = Pending;

    open spec fn view(&self) -> Pending {
        Pending { node: self.node as int, newlines: self.newlines as int }
    }
}

/// What a vector of pending nodes holds.
pub open spec fn pending_views(pending: Seq<PendingNode>) -> Seq<Pending> {
    Seq::new(pending.len(), |i: int| pending[i]@)
}

/// The number of newlines between the end of a node and the start of another.
pub open spec fn newlines_between(input: ParseInput, previous: int, current: int) -> int {
    newline_count(input.bytes(), input.tree.end_of(previous), input.tree.start_of(current)) as int
}

/// The kind of the declaration before another one.
pub open spec fn previous_kind(input: ParseInput, previous: Option<int>) -> GDScriptNodeKind {
    match previous {
        Some(node) => input.tree.kind_of(node),
        None => GDScriptNodeKind::Other,
    }
}

/// True where two declarations have a marker of a code region among them.
pub open spec fn touches_region_marker(
    input: ParseInput,
    previous: Option<int>,
    declaration: int,
) -> bool {
    is_region_marker(input.tree.kind_of(declaration)) || is_region_marker(
        previous_kind(input, previous),
    )
}

/// True where blank lines set two declarations apart, because one of them is a
/// definition. Markers of code regions are never set apart.
pub open spec fn wants_two_blank_lines(
    input: ParseInput,
    previous: Option<int>,
    declaration: int,
) -> bool {
    !touches_region_marker(input, previous, declaration) && (needs_two_blank_lines(
        previous_kind(input, previous),
    ) || needs_two_blank_lines(input.tree.kind_of(declaration)))
}

/// The blank lines that set two declarations apart.
pub open spec fn definition_gap_docs(
    input: ParseInput,
    previous: Option<int>,
    declaration: int,
) -> Seq<Doc> {
    blank_lines(
        separator_blank_lines(
            input,
            previous_kind(input, previous),
            input.tree.kind_of(declaration),
            wants_two_blank_lines(input, previous, declaration),
        ) as int,
    )
}

/// What stands in front of a declaration without anything pending. A line break
/// stands for a semicolon already.
#[verifier::opaque]
pub open spec fn plain_gap_docs(
    input: ParseInput,
    previous: Option<int>,
    declaration: int,
) -> Seq<Doc> {
    match previous {
        None => nothing(),
        Some(node) => {
            let newlines = newlines_between(input, node, declaration);
            if input.tree.kind_of(node) == GDScriptNodeKind::SemiColon {
                if newlines >= 2 {
                    definition_gap_docs(input, previous, declaration)
                } else {
                    nothing()
                }
            } else if wants_two_blank_lines(input, previous, declaration) {
                definition_gap_docs(input, previous, declaration)
            } else {
                newlines_docs(newlines)
            }
        },
    }
}

/// Pending nodes from `from` up to, not including, `to`, with what stands for
/// the newlines between them, and, where `separates_first`, in front of them.
pub open spec fn pending_docs(
    input: ParseInput,
    pending: Seq<Pending>,
    from: int,
    to: int,
    separates_first: bool,
) -> Seq<Doc>
    decreases to - from,
{
    if from >= to {
        nothing()
    } else {
        (if separates_first {
            newlines_docs(pending[from].newlines)
        } else {
            nothing()
        }) + node_docs(input, pending[from].node) + pending_docs(
            input,
            pending,
            from + 1,
            to,
            true,
        )
    }
}

/// True where no pending annotation has to stand on a line of its own.
pub open spec fn pending_annotations_are_inline(input: ParseInput, pending: Seq<Pending>) -> bool {
    forall|i: int|
        #![trigger pending[i]]
        0 <= i < pending.len() && input.tree.kind_of(pending[i].node)
            == GDScriptNodeKind::Annotation ==> is_inline_annotation(input, pending[i].node)
}

/// True where the last pending node is an annotation that goes on the line of
/// the variable below it.
pub open spec fn writes_annotation_inline(
    input: ParseInput,
    pending: Seq<Pending>,
    declaration: int,
) -> bool {
    &&& pending_annotations_are_inline(input, pending)
    &&& is_variable(input.tree.kind_of(declaration))
    &&& newlines_between(input, pending.last().node, declaration) == 1
    &&& input.tree.kind_of(pending.last().node) == GDScriptNodeKind::Annotation
}

/// The index of the first of the pending nodes, all on lines of their own, that
/// stand without blank lines above the one at `index`.
pub open spec fn leading_block_start(input: ParseInput, pending: Seq<Pending>, index: int) -> int
    decreases index,
{
    if index > 0 && (input.tree.kind_of(pending[index - 1].node) == GDScriptNodeKind::Comment
        || input.tree.kind_of(pending[index - 1].node) == GDScriptNodeKind::Annotation)
        && pending[index - 1].newlines != 0 && (index < pending.len() ==> pending[index].newlines
        == 1) {
        leading_block_start(input, pending, index - 1)
    } else {
        index
    }
}

/// The index of the first pending node of the leading block: those that stand
/// right above a definition and move with it. Where there is no such block, the
/// number of pending nodes.
pub open spec fn leading_start(
    input: ParseInput,
    pending: Seq<Pending>,
    previous: Option<int>,
    declaration: int,
) -> int {
    if previous is Some && needs_two_blank_lines(input.tree.kind_of(declaration))
        && newlines_between(input, pending.last().node, declaration) == 1
        && pending.last().newlines >= 1 {
        leading_block_start(input, pending, pending.len() as int)
    } else {
        pending.len() as int
    }
}

/// The index of the first pending node from `from` up to `to` that a blank line
/// separates from what stands before it.
pub open spec fn attached_end(
    pending: Seq<Pending>,
    from: int,
    to: int,
    separates_first: bool,
) -> int
    decreases to - from,
{
    if from >= to || (separates_first && pending[from].newlines >= 2) {
        from
    } else {
        attached_end(pending, from + 1, to, true)
    }
}

/// The leading block starts at one of the pending nodes, or behind them.
pub proof fn lemma_leading_block_start(input: ParseInput, pending: Seq<Pending>, index: int)
    requires
        0 <= index,
    ensures
        0 <= leading_block_start(input, pending, index) <= index,
    decreases index,
{
    if index > 0 {
        lemma_leading_block_start(input, pending, index - 1);
    }
}

/// Attached nodes end at one of the pending nodes, or behind them.
pub proof fn lemma_attached_end(pending: Seq<Pending>, from: int, to: int, separates_first: bool)
    requires
        from <= to,
    ensures
        from <= attached_end(pending, from, to, separates_first) <= to,
    decreases to - from,
{
    if from < to {
        lemma_attached_end(pending, from + 1, to, true);
    }
}

/// The number of newlines in front of the declaration, behind the last pending
/// node that is not in the leading block, or behind the previous declaration if
/// there is none.
pub open spec fn newlines_to_declaration(
    input: ParseInput,
    pending: Seq<Pending>,
    previous: Option<int>,
    declaration: int,
) -> int {
    let leading = leading_start(input, pending, previous, declaration);
    if leading > 0 {
        newlines_between(input, pending[leading - 1].node, declaration)
    } else {
        match previous {
            Some(node) => newlines_between(input, node, declaration),
            None => 0,
        }
    }
}

/// What stands in front of a paragraph of pending nodes that starts at `start`.
pub open spec fn paragraph_gap_docs(
    input: ParseInput,
    pending: Seq<Pending>,
    previous: Option<int>,
    declaration: int,
    start: int,
) -> Seq<Doc> {
    (if newlines_to_declaration(input, pending, previous, declaration) != 1 {
        hard_line()
    } else if wants_two_blank_lines(input, previous, declaration) {
        blank_line()
    } else if is_class_header(previous_kind(input, previous)) || pending[start].newlines < 3 {
        hard_line()
    } else {
        blank_line()
    }) + blank_line()
}

/// What stands between pending nodes and the declaration, where nothing but
/// nodes attached to each other is pending.
pub open spec fn attached_gap_docs(
    input: ParseInput,
    pending: Seq<Pending>,
    previous: Option<int>,
    declaration: int,
) -> Seq<Doc> {
    let newlines = newlines_to_declaration(input, pending, previous, declaration);
    let wants_two = wants_two_blank_lines(input, previous, declaration);
    if writes_annotation_inline(input, pending, declaration) {
        space()
    } else if wants_two && (previous is Some || newlines != 1) {
        definition_gap_docs(input, previous, declaration)
    } else if newlines == 1 {
        hard_line()
    } else {
        hard_and_blank_line()
    }
}

/// The leading block of a declaration, with what stands around it.
pub open spec fn leading_block_docs(
    input: ParseInput,
    pending: Seq<Pending>,
    previous: Option<int>,
    declaration: int,
    follows_paragraph: bool,
) -> Seq<Doc> {
    let leading = leading_start(input, pending, previous, declaration);
    (if wants_two_blank_lines(input, previous, declaration) {
        definition_gap_docs(input, previous, declaration)
    } else if follows_paragraph || newlines_to_declaration(input, pending, previous, declaration)
        <= 1 {
        hard_line()
    } else {
        hard_and_blank_line()
    }) + (if follows_paragraph {
        blank_line()
    } else {
        nothing()
    }) + pending_docs(input, pending, leading, pending.len() as int, false) + hard_line()
}

/// What stands between a paragraph of pending nodes and the declaration.
pub open spec fn after_paragraph_docs(
    input: ParseInput,
    pending: Seq<Pending>,
    previous: Option<int>,
    declaration: int,
) -> Seq<Doc> {
    if newlines_to_declaration(input, pending, previous, declaration) == 1 {
        if writes_annotation_inline(input, pending, declaration) {
            space()
        } else {
            hard_line()
        }
    } else if needs_two_blank_lines(input.tree.kind_of(declaration)) {
        blank_lines(blank_lines_before(input, input.tree.kind_of(declaration)) as int)
    } else {
        hard_and_blank_line()
    }
}

/// Everything in front of a declaration, from the previous one on.
///
/// The pending nodes fall into three parts: those attached to the previous
/// declaration, those behind a blank line, which form a paragraph, and the
/// leading block, which stands right above the declaration.
#[verifier::opaque]
pub open spec fn declaration_gap_docs(
    input: ParseInput,
    pending: Seq<Pending>,
    previous: Option<int>,
    declaration: int,
) -> Seq<Doc> {
    let leading = leading_start(input, pending, previous, declaration);
    let attached = attached_end(pending, 0, leading, previous is Some);
    if pending.len() == 0 {
        plain_gap_docs(input, previous, declaration)
    } else {
        pending_docs(input, pending, 0, attached, previous is Some) + (if attached == leading {
            if leading == pending.len() {
                attached_gap_docs(input, pending, previous, declaration)
            } else {
                leading_block_docs(input, pending, previous, declaration, false)
            }
        } else {
            (if previous is Some || attached > 0 {
                paragraph_gap_docs(input, pending, previous, declaration, attached)
            } else {
                nothing()
            }) + pending_docs(input, pending, attached, leading, false) + (if leading
                == pending.len() {
                after_paragraph_docs(input, pending, previous, declaration)
            } else {
                leading_block_docs(input, pending, previous, declaration, true)
            })
        })
    }
}

/// The number of newlines in front of a node that becomes pending.
pub open spec fn newlines_before_pending(
    input: ParseInput,
    pending: Seq<Pending>,
    previous: Option<int>,
    node: int,
) -> int {
    if pending.len() > 0 {
        newlines_between(input, pending.last().node, node)
    } else {
        match previous {
            Some(declaration) => newlines_between(input, declaration, node),
            None => 0,
        }
    }
}

/// The top level of a script from the child at `index` on, behind `previous`
/// and with `pending` nodes. Comments and annotations wait for the declaration
/// behind them, semicolons become line breaks, and what a disabled region
/// covers is copied as it is.
#[verifier::opaque]
pub open spec fn source_from(
    input: ParseInput,
    index: int,
    previous: Option<int>,
    pending: Seq<Pending>,
) -> Seq<Doc>
    decreases input.tree.children_left(0, index),
{
    let child = input.tree.child_of(0, index);
    let kind = input.tree.kind_of(child);
    if index >= input.tree.child_count_of(0) {
        pending_docs(input, pending, 0, pending.len() as int, previous is Some)
    } else {
        match overlap(input, 0, index) {
            Overlap::Covered { region, following } => {
                let last = Some(input.tree.child_of(0, index + following));
                if input.tree.start_of(child) == region.start {
                    declaration_gap_docs(input, pending, previous, child) + unformatted(
                        region.start as int,
                        region.end as int,
                    ) + source_from(input, index + following + 1, last, Seq::empty())
                } else {
                    source_from(input, index + following + 1, last, pending)
                }
            },
            Overlap::Partial => node_docs(input, child) + source_from(
                input,
                index + 1,
                Some(child),
                pending,
            ),
            Overlap::Clear => if kind == GDScriptNodeKind::SemiColon {
                hard_line() + source_from(input, index + 1, Some(child), pending)
            } else if kind == GDScriptNodeKind::Comment || kind == GDScriptNodeKind::Annotation {
                source_from(
                    input,
                    index + 1,
                    previous,
                    pending.push(
                        Pending {
                            node: child,
                            newlines: newlines_before_pending(input, pending, previous, child),
                        },
                    ),
                )
            } else {
                declaration_gap_docs(input, pending, previous, child) + node_docs(input, child)
                    + source_from(input, index + 1, Some(child), Seq::empty())
            },
        }
    }
}

/// A whole script.
pub open spec fn source_docs(input: ParseInput) -> Seq<Doc> {
    if input.follows_plan() {
        reordered_docs(input)
    } else {
        source_from(input, 0, None, Seq::empty())
    }
}

/// The position of a node as a mathematical value.
pub open spec fn position(node: Option<usize>) -> Option<int> {
    match node {
        Some(node) => Some(node as int),
        None => None,
    }
}

/// True where a node ends at or before an offset.
pub open spec fn ends_by(input: ParseInput, node: int, offset: int) -> bool {
    input.tree.has(node) && input.tree.end_of(node) <= offset
}

/// True where all pending nodes end at or before an offset.
pub open spec fn all_end_by(input: ParseInput, pending: Seq<PendingNode>, offset: int) -> bool {
    forall|i: int|
        #![trigger pending[i]]
        0 <= i < pending.len() ==> ends_by(input, pending[i].node as int, offset)
}

/// Counts the newlines between the end of a node and the start of another.
fn count_newlines_between(input: &ParseInput, previous: usize, current: usize) -> (count: usize)
    requires
        input.tree_fits(),
        input.tree.has(current as int),
        ends_by(*input, previous as int, input.tree.start_of(current as int)),
    ensures
        count == newlines_between(*input, previous as int, current as int),
{
    proof {
        input.lemma_node(current as int);
    }
    count_newlines(input.source, input.tree.end_byte(previous), input.tree.start_byte(current))
}

/// Writes pending nodes from `from` up to, not including, `to`.
fn process_pending_block(
    input: &ParseInput,
    pending: &Vec<PendingNode>,
    from: usize,
    to: usize,
    separates_first: bool,
    writer: &mut ElementWriter,
)
    requires
        input.tree_fits(),
        to <= pending@.len(),
        forall|i: int| 0 <= i < pending@.len() ==> input.tree.has((#[trigger] pending@[i]).node as int),
        old(writer).wf(),
    ensures
        wrote(
            *old(writer),
            *final(writer),
            pending_docs(
                *input,
                pending_views(pending@),
                from as int,
                to as int,
                separates_first,
            ),
        ),
{
    let ghost views = pending_views(pending@);
    let ghost total = pending_docs(*input, views, from as int, to as int, separates_first);
    let mut index: usize = from;
    while index < to
        invariant
            from <= index,
            to <= pending@.len(),
            views == pending_views(pending@),
            input.tree_fits(),
            forall|i: int|
                0 <= i < pending@.len() ==> input.tree.has((#[trigger] pending@[i]).node as int),
            is_writing(
                *old(writer),
                *writer,
                pending_docs(
                    *input,
                    views,
                    index as int,
                    to as int,
                    separates_first || index > from,
                ),
                total,
            ),
        decreases to - index,
    {
        let item = pending[index];
        assert(views[index as int] == item@);
        if separates_first || index > from {
            push_separator_for_newline_count(item.newlines, writer);
        }
        process_node(input, item.node, writer);
        index = index + 1;
    }
}

/// Writes the comments and annotations behind the last declaration.
fn flush_trailing_pending(
    input: &ParseInput,
    pending: &Vec<PendingNode>,
    has_previous_content: bool,
    writer: &mut ElementWriter,
)
    requires
        input.tree_fits(),
        forall|i: int| 0 <= i < pending@.len() ==> input.tree.has((#[trigger] pending@[i]).node as int),
        old(writer).wf(),
    ensures
        wrote(
            *old(writer),
            *final(writer),
            pending_docs(
                *input,
                pending_views(pending@),
                0,
                pending@.len() as int,
                has_previous_content,
            ),
        ),
{
    process_pending_block(input, pending, 0, pending.len(), has_previous_content, writer);
}

/// Tells whether no pending annotation has to stand on a line of its own.
fn pending_annotations_can_inline(input: &ParseInput, pending: &Vec<PendingNode>) -> (inline: bool)
    requires
        input.tree_fits(),
        forall|i: int| 0 <= i < pending@.len() ==> input.tree.has((#[trigger] pending@[i]).node as int),
    ensures
        inline == pending_annotations_are_inline(*input, pending_views(pending@)),
{
    let ghost views = pending_views(pending@);
    let mut index: usize = 0;
    while index < pending.len()
        invariant
            index <= pending@.len(),
            views == pending_views(pending@),
            input.tree_fits(),
            forall|i: int|
                0 <= i < pending@.len() ==> input.tree.has((#[trigger] pending@[i]).node as int),
            forall|i: int|
                #![trigger views[i]]
                0 <= i < index && input.tree.kind_of(views[i].node) == GDScriptNodeKind::Annotation
                    ==> is_inline_annotation(*input, views[i].node),
        decreases pending@.len() - index,
    {
        let item = pending[index];
        assert(views[index as int] == item@);
        if input.kind(item.node) == GDScriptNodeKind::Annotation
            && !is_export_or_onready_annotation(input, item.node) {
            return false;
        }
        index = index + 1;
    }
    true
}

/// Finds the leading block of a definition.
fn find_leading_block(input: &ParseInput, pending: &Vec<PendingNode>) -> (start: usize)
    requires
        input.tree_fits(),
        forall|i: int| 0 <= i < pending@.len() ==> input.tree.has((#[trigger] pending@[i]).node as int),
    ensures
        start == leading_block_start(*input, pending_views(pending@), pending@.len() as int),
        start <= pending@.len(),
{
    let ghost views = pending_views(pending@);
    let mut start: usize = pending.len();
    while start > 0
        invariant
            start <= pending@.len(),
            views == pending_views(pending@),
            input.tree_fits(),
            forall|i: int|
                0 <= i < pending@.len() ==> input.tree.has((#[trigger] pending@[i]).node as int),
            leading_block_start(*input, views, pending@.len() as int) == leading_block_start(
                *input,
                views,
                start as int,
            ),
        decreases start,
    {
        let item = pending[start - 1];
        assert(views[start - 1] == item@);
        let item_kind = input.kind(item.node);
        if (item_kind != GDScriptNodeKind::Comment && item_kind != GDScriptNodeKind::Annotation)
            || item.newlines == 0 {
            return start;
        }
        if start < pending.len() {
            assert(views[start as int] == pending@[start as int]@);
            if pending[start].newlines != 1 {
                return start;
            }
        }
        start = start - 1;
    }
    start
}

/// Finds the first pending node that a blank line separates from what stands
/// before it.
fn find_attached_end(pending: &Vec<PendingNode>, to: usize, has_previous_content: bool) -> (end:
    usize)
    requires
        to <= pending@.len(),
    ensures
        end == attached_end(pending_views(pending@), 0, to as int, has_previous_content),
        end <= to,
{
    let ghost views = pending_views(pending@);
    let mut end: usize = 0;
    while end < to
        invariant
            end <= to <= pending@.len(),
            views == pending_views(pending@),
            attached_end(views, 0, to as int, has_previous_content) == attached_end(
                views,
                end as int,
                to as int,
                has_previous_content || end > 0,
            ),
        decreases to - end,
    {
        assert(views[end as int] == pending@[end as int]@);
        if (has_previous_content || end > 0) && pending[end].newlines >= 2 {
            return end;
        }
        end = end + 1;
    }
    end
}

/// Writes everything in front of a declaration, from the previous one on.
#[verifier::rlimit(40)]
fn output_pending_before_declaration(
    input: &ParseInput,
    pending: &Vec<PendingNode>,
    previous: Option<usize>,
    declaration: usize,
    writer: &mut ElementWriter,
)
    requires
        input.tree_fits(),
        input.tree.has(declaration as int),
        all_end_by(*input, pending@, input.tree.start_of(declaration as int)),
        previous matches Some(node) ==> ends_by(
            *input,
            node as int,
            input.tree.start_of(declaration as int),
        ),
        old(writer).wf(),
    ensures
        wrote(
            *old(writer),
            *final(writer),
            declaration_gap_docs(
                *input,
                pending_views(pending@),
                position(previous),
                declaration as int,
            ),
        ),
{
    proof {
        reveal(declaration_gap_docs);
        reveal(plain_gap_docs);
    }
    let ghost views = pending_views(pending@);
    let declaration_kind = input.kind(declaration);
    let declaration_needs_two_blank = needs_two_blank_lines(declaration_kind);
    let previous_kind = match previous {
        Some(node) => input.kind(node),
        None => GDScriptNodeKind::Other,
    };
    let touches_region = is_region_marker(declaration_kind) || is_region_marker(previous_kind);
    let wants_two = !touches_region && (needs_two_blank_lines(previous_kind)
        || declaration_needs_two_blank);
    let blank_count: u16 = calculate_separator_blank_count(
        input,
        previous_kind,
        declaration_kind,
        wants_two,
    );
    if pending.len() == 0 {
        match previous {
            None => {},
            Some(node) => {
                let newlines: usize = count_newlines_between(input, node, declaration);
                if previous_kind == GDScriptNodeKind::SemiColon {
                    if newlines >= 2 {
                        writer.push_blank_lines(blank_count);
                    }
                } else if wants_two {
                    writer.push_blank_lines(blank_count);
                } else {
                    push_separator_for_newline_count(newlines, writer);
                }
            },
        }
        return ;
    }
    let has_previous_content = previous.is_some();
    let last = pending[pending.len() - 1];
    assert(views.last() == last@);
    let newlines_from_last: usize = count_newlines_between(input, last.node, declaration);
    let writes_inline = is_variable(declaration_kind) && newlines_from_last == 1 && input.kind(
        last.node,
    ) == GDScriptNodeKind::Annotation && pending_annotations_can_inline(input, pending);
    // What stands right above a definition moves with it.
    let leading: usize = if has_previous_content && declaration_needs_two_blank
        && newlines_from_last == 1 && last.newlines >= 1 {
        find_leading_block(input, pending)
    } else {
        pending.len()
    };
    let newlines_to_declaration: usize = if leading > 0 {
        assert(views[leading - 1] == pending@[leading - 1]@);
        count_newlines_between(input, pending[leading - 1].node, declaration)
    } else {
        match previous {
            Some(node) => count_newlines_between(input, node, declaration),
            None => 0,
        }
    };
    let attached: usize = find_attached_end(pending, leading, has_previous_content);
    process_pending_block(input, pending, 0, attached, has_previous_content, writer);
    if attached == leading {
        if leading == pending.len() {
            if writes_inline {
                writer.push_space();
            } else if wants_two && (has_previous_content || newlines_to_declaration != 1) {
                writer.push_blank_lines(blank_count);
            } else if newlines_to_declaration == 1 {
                writer.push_hard_line();
            } else {
                writer.push_hard_and_blank_line();
            }
        } else {
            if wants_two {
                writer.push_blank_lines(blank_count);
            } else if newlines_to_declaration <= 1 {
                writer.push_hard_line();
            } else {
                writer.push_hard_and_blank_line();
            }
            process_pending_block(input, pending, leading, pending.len(), false, writer);
            writer.push_hard_line();
        }
        return ;
    }
    if has_previous_content || attached > 0 {
        assert(views[attached as int] == pending@[attached as int]@);
        if newlines_to_declaration != 1 {
            writer.push_hard_line();
        } else if wants_two {
            writer.push_blank_line();
        } else if is_class_header(previous_kind) || pending[attached].newlines < 3 {
            writer.push_hard_line();
        } else {
            writer.push_blank_line();
        }
        writer.push_blank_line();
    }
    process_pending_block(input, pending, attached, leading, false, writer);
    if leading < pending.len() {
        if wants_two {
            writer.push_blank_lines(blank_count);
        } else {
            writer.push_hard_line();
        }
        writer.push_blank_line();
        process_pending_block(input, pending, leading, pending.len(), false, writer);
        writer.push_hard_line();
    } else if newlines_to_declaration == 1 {
        if writes_inline {
            writer.push_space();
        } else {
            writer.push_hard_line();
        }
    } else if declaration_needs_two_blank {
        let count: u16 = get_blank_line_count_before_declaration(input, declaration_kind);
        writer.push_blank_lines(count);
    } else {
        writer.push_hard_and_blank_line();
    }
}

/// Where a child of the root ends, all before it have ended.
proof fn lemma_ends_by_next(input: ParseInput, pending: Seq<PendingNode>, before: int, index: int)
    requires
        input.tree_fits(),
        0 <= before < index < input.tree.child_count_of(0),
    ensures
        input.tree.end_of(input.tree.child_of(0, before)) <= input.tree.start_of(
            input.tree.child_of(0, index),
        ) <= input.tree.end_of(input.tree.child_of(0, index)),
        all_end_by(input, pending, input.tree.end_of(input.tree.child_of(0, before)))
            ==> all_end_by(input, pending, input.tree.start_of(input.tree.child_of(0, index)))
            && all_end_by(input, pending, input.tree.end_of(input.tree.child_of(0, index))),
{
    input.lemma_siblings(0, before, index);
}

/// Writes the top level of a script. Where formatting is disabled somewhere,
/// declarations are not reordered, as that would move them into or out of the
/// disabled regions.
pub fn process_source(input: &ParseInput, writer: &mut ElementWriter)
    requires
        input.wf(),
        old(writer).wf(),
    ensures
        wrote(*old(writer), *final(writer), source_docs(*input)),
{
    if input.reorders() {
        process_source_reorder(input, writer);
        return ;
    }
    let ghost total = source_from(*input, 0, None, Seq::empty());
    let count: usize = input.tree.child_count(0);
    let mut index: usize = 0;
    let mut previous: Option<usize> = None;
    let mut pending: Vec<PendingNode> = Vec::new();
    assert(pending_views(pending@) =~= Seq::<Pending>::empty());
    while index < count
        invariant
            index <= count == input.tree.child_count_of(0),
            input.tree_fits(),
            input.tree.has(0),
            index == 0 ==> pending@.len() == 0 && previous is None,
            index > 0 ==> all_end_by(
                *input,
                pending@,
                input.tree.end_of(input.tree.child_of(0, index - 1)),
            ),
            index > 0 && previous is Some ==> ends_by(
                *input,
                previous->0 as int,
                input.tree.end_of(input.tree.child_of(0, index - 1)),
            ),
            is_writing(
                *old(writer),
                *writer,
                source_from(*input, index as int, position(previous), pending_views(pending@)),
                total,
            ),
        decreases count - index,
    {
        let child: usize = input.tree.child(0, index);
        let kind = input.tree.child_kind(0, index);
        let ghost views = pending_views(pending@);
        let ghost start = input.tree.start_of(child as int);
        proof {
            reveal(source_from);
            input.tree.lemma_child(0, index as int);
            input.lemma_node(child as int);
            if index > 0 {
                lemma_ends_by_next(*input, pending@, index - 1, index as int);
            }
            assert(all_end_by(*input, pending@, start));
            assert(previous is Some ==> ends_by(*input, previous->0 as int, start));
        }
        match classify_disabled_region_overlap(input, 0, index) {
            DisabledRegionOverlapKind::CoveredFully(span) => {
                let last: usize = span.last_covered_index;
                proof {
                    if last > index {
                        lemma_ends_by_next(*input, pending@, index as int, last as int);
                    }
                    input.tree.lemma_child(0, last as int);
                }
                if input.tree.start_byte(child) == span.region.start {
                    output_pending_before_declaration(input, &pending, previous, child, writer);
                    writer.push_unformatted(span.region.start, span.region.end);
                    pending.clear();
                    assert(pending_views(pending@) =~= Seq::<Pending>::empty());
                }
                previous = Some(input.tree.child(0, last));
                index = last + 1;
            },
            DisabledRegionOverlapKind::PartiallyCovered => {
                process_node(input, child, writer);
                previous = Some(child);
                index = index + 1;
            },
            DisabledRegionOverlapKind::NotCovered => {
                if kind == GDScriptNodeKind::SemiColon {
                    writer.push_hard_line();
                    previous = Some(child);
                } else if kind == GDScriptNodeKind::Comment || kind
                    == GDScriptNodeKind::Annotation {
                    let newlines: usize = if pending.len() > 0 {
                        let last = pending[pending.len() - 1];
                        assert(views.last() == last@);
                        count_newlines_between(input, last.node, child)
                    } else {
                        match previous {
                            Some(node) => count_newlines_between(input, node, child),
                            None => 0,
                        }
                    };
                    pending.push(PendingNode { node: child, newlines });
                    assert(pending_views(pending@) =~= views.push(
                        Pending { node: child as int, newlines: newlines as int },
                    ));
                } else {
                    output_pending_before_declaration(input, &pending, previous, child, writer);
                    process_node(input, child, writer);
                    pending.clear();
                    assert(pending_views(pending@) =~= Seq::<Pending>::empty());
                    previous = Some(child);
                }
                index = index + 1;
            },
        }
    }
    proof {
        reveal(source_from);
        assert(pending_views(pending@).len() == pending@.len());
    }
    flush_trailing_pending(input, &pending, previous.is_some(), writer);
}

} // verus!
