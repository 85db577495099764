//! What stands between the declarations of a script.
use vstd::prelude::*;

use crate::document::{
    blank_line, blank_lines, group_concat, hard_and_blank_line, hard_line, nothing, space, Doc,
};
use crate::formatter::annotations::{exports_go_on_the_line, goes_on_the_line};
use crate::formatter::nodes::node_docs;
use crate::formatter::regions::overlap;
use crate::formatter::rows::{
    has_blank_line, has_line_break, in_a_row, is_blank, lemma_row, lemma_row_inside,
};
use crate::formatter::separators::newlines_docs;
use crate::formatter::source::{
    after_paragraph_docs, attached_end, attached_gap_docs, declaration_gap_docs,
    definition_gap_docs, leading_block_start, leading_start, lemma_leading_block_start,
    newlines_before_pending, newlines_between, newlines_to_declaration, paragraph_gap_docs,
    pending_docs, plain_gap_docs, source_docs, source_from, wants_two_blank_lines, Pending,
};
use crate::node_kind::GDScriptNodeKind;
use crate::parser::ParseInput;
use crate::renderer::Element;
use crate::text::{newline_count, newline_count_grows};

verus! {

broadcast use group_concat;

/// The kind of a child of the root.
pub open spec fn top_kind(input: ParseInput, index: int) -> GDScriptNodeKind {
    input.tree.child_kind_of(0, index)
}

/// The number of newlines between a child of the root and the next one.
pub open spec fn newlines_behind(input: ParseInput, index: int) -> int {
    newline_count(
        input.bytes(),
        input.tree.end_of(input.tree.child_of(0, index)),
        input.tree.start_of(input.tree.child_of(0, index + 1)),
    ) as int
}

/// True of functions, classes and constructors.
pub open spec fn defines(kind: GDScriptNodeKind) -> bool {
    matches!(
        kind,
        GDScriptNodeKind::Function
            | GDScriptNodeKind::ClassDefinition
            | GDScriptNodeKind::InnerClass
            | GDScriptNodeKind::Constructor
    )
}

/// True of comments and annotations.
pub open spec fn leads(kind: GDScriptNodeKind) -> bool {
    kind == GDScriptNodeKind::Comment || kind == GDScriptNodeKind::Annotation
}

/// True of the markers of code regions.
pub open spec fn marks_region(kind: GDScriptNodeKind) -> bool {
    kind == GDScriptNodeKind::RegionStart || kind == GDScriptNodeKind::RegionEnd
}

/// True of variables.
pub open spec fn declares_variable(kind: GDScriptNodeKind) -> bool {
    kind == GDScriptNodeKind::Variable || kind == GDScriptNodeKind::ExportVariable || kind
        == GDScriptNodeKind::OnReadyVariable
}

/// What may stand between a child of the root and the next one:
///
/// - spaces, line breaks and empty lines, and nothing else;
/// - a line break where there is one in the source, but for an annotation that
///   goes on the line of its variable;
/// - a space behind a single annotation that goes on the line of its variable;
/// - an empty line where there is one in the source;
/// - the blank lines of the options around a definition, unless a comment, an
///   annotation or the marker of a code region is next to it;
/// - a space, a line break, or a line break and an empty line, as in the source,
///   between other declarations;
/// - a space in front of a comment on the line of a declaration;
/// - a line break between a comment or annotation on a line of its own and what
///   stands on the line below, if that is another one or a definition.
pub open spec fn is_top_level_gap(input: ParseInput, index: int, gap: Seq<Doc>) -> bool {
    let first = top_kind(input, index);
    let second = top_kind(input, index + 1);
    let newlines = newlines_behind(input, index);
    let around_definition = (defines(first) || defines(second)) && !marks_region(first)
        && !marks_region(second);
    &&& is_blank(gap)
    &&& newlines >= 1 && !(first == GDScriptNodeKind::Annotation && declares_variable(second))
        ==> has_line_break(gap)
    &&& newlines >= 2 ==> has_blank_line(gap)
    &&& first == GDScriptNodeKind::Annotation && declares_variable(second) && newlines >= 1
        && !goes_on_the_line(input, input.tree.child_of(0, index)) ==> has_line_break(gap)
    &&& first == GDScriptNodeKind::Annotation && declares_variable(second) && newlines == 1
        && goes_on_the_line(input, input.tree.child_of(0, index)) && (index == 0 || !leads(
        top_kind(input, index - 1),
    )) ==> gap == space()
    &&& !leads(first) && !leads(second) && around_definition ==> gap == blank_lines(
        input.blank_lines_around_definitions as int,
    )
    &&& !leads(first) && !leads(second) && !around_definition ==> gap == if newlines == 0 {
        space()
    } else if newlines == 1 {
        hard_line()
    } else {
        hard_and_blank_line()
    }
    &&& !leads(first) && second == GDScriptNodeKind::Comment && newlines == 0 ==> gap == space()
    &&& leads(first) && (leads(second) || defines(second)) && newlines == 1 && (index == 0
        || newlines_behind(input, index - 1) >= 1) ==> gap == hard_line()
}

/// True where a child of the root and the next one follow each other in
/// documents, with what may stand between them.
pub open spec fn follow_each_other(input: ParseInput, docs: Seq<Doc>, index: int) -> bool {
    exists|gap: Seq<Doc>|
        is_top_level_gap(input, index, gap) && #[trigger] in_a_row(
            docs,
            node_docs(input, input.tree.child_of(0, index)),
            gap,
            node_docs(input, input.tree.child_of(0, index + 1)),
        )
}

/// True of a comment or annotation on the top level with a semicolon behind it.
pub open spec fn leads_semicolon(input: ParseInput, index: int) -> bool {
    0 <= index && index + 1 < input.tree.child_count_of(0) && leads(top_kind(input, index))
        && top_kind(input, index + 1) == GDScriptNodeKind::SemiColon
}

/// True of a script that stays in order, has no disabled regions and no
/// semicolon right behind a comment or annotation, and in which blank lines set
/// definitions apart.
pub open spec fn is_plain_script(input: ParseInput) -> bool {
    &&& input.tree_fits()
    &&& !input.follows_plan()
    &&& input.disabled_regions@.len() == 0
    &&& input.blank_lines_around_definitions > 0
    &&& forall|index: int| !#[trigger] leads_semicolon(input, index)
}

/// The number of newlines in front of a child of the root.
spec fn newlines_in_front(input: ParseInput, index: int) -> int {
    if index > 0 {
        newlines_behind(input, index - 1)
    } else {
        0
    }
}

/// True where the pending nodes are the children of the root from `start` on.
spec fn are_children(input: ParseInput, start: int, pending: Seq<Pending>) -> bool {
    forall|i: int|
        #![trigger pending[i]]
        0 <= i < pending.len() ==> {
            &&& pending[i].node == input.tree.child_of(0, start + i)
            &&& leads(top_kind(input, start + i))
            &&& pending[i].newlines == newlines_in_front(input, start + i)
        }
}

/// True where the pending nodes are the children of the root in front of
/// `index`, up to the previous declaration.
spec fn is_state(
    input: ParseInput,
    index: int,
    previous: Option<int>,
    pending: Seq<Pending>,
) -> bool {
    let start = index - pending.len();
    &&& 0 <= start <= index <= input.tree.child_count_of(0)
    &&& are_children(input, start, pending)
    &&& previous == if start > 0 {
        Some(input.tree.child_of(0, start - 1))
    } else {
        None
    }
    &&& start > 0 ==> !leads(top_kind(input, start - 1))
}

/// A comment or annotation becomes pending.
proof fn lemma_push(input: ParseInput, index: int, previous: Option<int>, pending: Seq<Pending>)
    requires
        is_state(input, index, previous, pending),
        index < input.tree.child_count_of(0),
        leads(top_kind(input, index)),
    ensures
        is_state(
            input,
            index + 1,
            previous,
            pending.push(
                Pending {
                    node: input.tree.child_of(0, index),
                    newlines: newlines_before_pending(
                        input,
                        pending,
                        previous,
                        input.tree.child_of(0, index),
                    ),
                },
            ),
        ),
{
    let child = input.tree.child_of(0, index);
    let newlines = newlines_before_pending(input, pending, previous, child);
    let waiting = pending.push(Pending { node: child, newlines });
    let start = index - pending.len();
    if pending.len() > 0 {
        assert(pending[pending.len() - 1].node == input.tree.child_of(0, index - 1));
    }
    assert(index + 1 - waiting.len() == start);
    assert(newlines == newlines_in_front(input, index));
    assert forall|i: int| #![trigger waiting[i]] 0 <= i < waiting.len() implies {
        &&& waiting[i].node == input.tree.child_of(0, start + i)
        &&& leads(top_kind(input, start + i))
        &&& waiting[i].newlines == newlines_in_front(input, start + i)
    } by {
        if i < pending.len() {
            assert(waiting[i] == pending[i]);
        }
    }
    assert(are_children(input, start, waiting));
}

/// Pending nodes are written in two parts.
proof fn lemma_pending_split(
    input: ParseInput,
    pending: Seq<Pending>,
    from: int,
    middle: int,
    to: int,
    separates_first: bool,
)
    requires
        from < middle <= to,
    ensures
        pending_docs(input, pending, from, to, separates_first) == pending_docs(
            input,
            pending,
            from,
            middle,
            separates_first,
        ) + pending_docs(input, pending, middle, to, true),
    decreases middle - from,
{
    reveal_with_fuel(pending_docs, 2);
    if from + 1 < middle {
        lemma_pending_split(input, pending, from + 1, middle, to, true);
    } else {
        assert(pending_docs(input, pending, middle, middle, true) == nothing());
    }
}

/// The last of some pending nodes comes last.
proof fn lemma_pending_last(
    input: ParseInput,
    pending: Seq<Pending>,
    from: int,
    to: int,
    separates_first: bool,
) -> (front: Seq<Doc>)
    requires
        from < to,
    ensures
        pending_docs(input, pending, from, to, separates_first) == front + node_docs(
            input,
            pending[to - 1].node,
        ),
{
    assert(pending_docs(input, pending, to, to, true) == nothing());
    if from == to - 1 {
        if separates_first {
            newlines_docs(pending[from].newlines)
        } else {
            nothing()
        }
    } else {
        lemma_pending_split(input, pending, from, to - 1, to, separates_first);
        assert(pending_docs(input, pending, to - 1, to, true) == newlines_docs(
            pending[to - 1].newlines,
        ) + node_docs(input, pending[to - 1].node) + nothing());
        pending_docs(input, pending, from, to - 1, separates_first) + newlines_docs(
            pending[to - 1].newlines,
        )
    }
}

/// Two pending nodes next to each other.
proof fn lemma_pending_row(
    input: ParseInput,
    pending: Seq<Pending>,
    from: int,
    at: int,
    to: int,
    separates_first: bool,
)
    requires
        from < at < to,
    ensures
        in_a_row(
            pending_docs(input, pending, from, to, separates_first),
            node_docs(input, pending[at - 1].node),
            newlines_docs(pending[at].newlines),
            node_docs(input, pending[at].node),
        ),
{
    lemma_pending_split(input, pending, from, at, to, separates_first);
    let front = lemma_pending_last(input, pending, from, at, separates_first);
    let first = node_docs(input, pending[at - 1].node);
    let gap = newlines_docs(pending[at].newlines);
    let second = node_docs(input, pending[at].node);
    let rest = pending_docs(input, pending, at + 1, to, true);
    assert(pending_docs(input, pending, at, to, true) == gap + second + rest);
    assert(pending_docs(input, pending, from, to, separates_first) =~= front + first + gap + second
        + rest);
    lemma_row(front, first, gap, second, rest);
}

/// What is true of the nodes in the leading block.
proof fn lemma_leading_block(input: ParseInput, pending: Seq<Pending>, index: int)
    requires
        0 <= index <= pending.len(),
        forall|i: int|
            #![trigger pending[i]]
            0 <= i < pending.len() ==> leads(input.tree.kind_of(pending[i].node)),
    ensures
        ({
            let start = leading_block_start(input, pending, index);
            &&& 0 <= start <= index
            &&& forall|i: int|
                #![trigger pending[i]]
                start <= i < index ==> pending[i].newlines != 0
            &&& forall|i: int|
                #![trigger pending[i]]
                start < i <= index && i < pending.len() ==> pending[i].newlines == 1
            &&& start > 0 ==> pending[start - 1].newlines == 0 || start < pending.len()
                && pending[start].newlines != 1
        }),
    decreases index,
{
    if index > 0 {
        assert(leads(input.tree.kind_of(pending[index - 1].node)));
        lemma_leading_block(input, pending, index - 1);
    }
}

/// Attached nodes end where a blank line stands.
proof fn lemma_attached(pending: Seq<Pending>, from: int, to: int, separates_first: bool)
    requires
        0 <= from <= to <= pending.len(),
    ensures
        ({
            let end = attached_end(pending, from, to, separates_first);
            &&& from <= end <= to
            &&& end < to ==> pending[end].newlines >= 2 && (separates_first || from < end)
        }),
    decreases to - from,
{
    if from < to {
        lemma_attached(pending, from + 1, to, true);
    }
}

/// What stands for newlines.
proof fn lemma_newlines(newlines: int)
    requires
        0 <= newlines,
    ensures
        is_blank(newlines_docs(newlines)),
        newlines >= 1 ==> has_line_break(newlines_docs(newlines)),
        newlines >= 2 ==> has_blank_line(newlines_docs(newlines)),
{
    let docs = newlines_docs(newlines);
    if newlines >= 2 {
        assert(docs[0] == Doc::Leaf(Element::HardLine));
        assert(docs[1] == Doc::Leaf(Element::BlankLine));
    } else if newlines == 1 {
        assert(docs[0] == Doc::Leaf(Element::HardLine));
    }
}

/// Blank lines are blank.
proof fn lemma_blank_lines(count: int)
    requires
        count > 0,
    ensures
        is_blank(blank_lines(count)),
        has_line_break(blank_lines(count)),
        has_blank_line(blank_lines(count)),
{
    assert(blank_lines(count)[0] == Doc::Leaf(Element::BlankLine));
}

/// A line break, and with an empty line.
proof fn lemma_lines()
    ensures
        is_blank(space()),
        is_blank(hard_line()),
        has_line_break(hard_line()),
        is_blank(hard_and_blank_line()),
        has_line_break(hard_and_blank_line()),
        has_blank_line(hard_and_blank_line()),
        is_blank(blank_line() + blank_line()),
        has_line_break(blank_line() + blank_line()),
        has_blank_line(blank_line() + blank_line()),
{
    assert(hard_line()[0] == Doc::Leaf(Element::HardLine));
    assert(hard_and_blank_line()[0] == Doc::Leaf(Element::HardLine));
    assert(hard_and_blank_line()[1] == Doc::Leaf(Element::BlankLine));
    assert((blank_line() + blank_line())[0] == Doc::Leaf(Element::BlankLine));
}

/// What stands in front of the leading block.
spec fn leading_gap(
    input: ParseInput,
    pending: Seq<Pending>,
    previous: Option<int>,
    declaration: int,
    follows_paragraph: bool,
) -> Seq<Doc> {
    (if wants_two_blank_lines(input, previous, declaration) {
        definition_gap_docs(input, previous, declaration)
    } else if follows_paragraph || newlines_to_declaration(input, pending, previous, declaration)
        <= 1 {
        hard_line()
    } else {
        hard_and_blank_line()
    }) + (if follows_paragraph {
        blank_line()
    } else {
        nothing()
    })
}

/// What stands in front of the leading block is blank, and has an empty line
/// where there is one in the source.
proof fn lemma_leading_gap(
    input: ParseInput,
    index: int,
    previous: Option<int>,
    pending: Seq<Pending>,
    follows_paragraph: bool,
)
    requires
        is_plain_script(input),
        is_state(input, index, previous, pending),
        index < input.tree.child_count_of(0),
        pending.len() > 0,
        previous is Some,
        leading_start(input, pending, previous, input.tree.child_of(0, index)) < pending.len(),
    ensures
        ({
            let declaration = input.tree.child_of(0, index);
            let leading = leading_start(input, pending, previous, declaration);
            let gap = leading_gap(input, pending, previous, declaration, follows_paragraph);
            &&& is_blank(gap)
            &&& has_line_break(gap)
            &&& pending[leading].newlines >= 2 ==> has_blank_line(gap)
        }),
{
    let declaration = input.tree.child_of(0, index);
    let leading = leading_start(input, pending, previous, declaration);
    let gap = leading_gap(input, pending, previous, declaration, follows_paragraph);
    let start = index - pending.len();
    let option = input.blank_lines_around_definitions as int;
    assert forall|i: int|
        #![trigger pending[i]]
        0 <= i < pending.len() implies leads(input.tree.kind_of(pending[i].node)) by {}
    lemma_leading_block(input, pending, pending.len() as int);
    lemma_lines();
    lemma_blank_lines(option);
    let leader = input.tree.child_of(0, start + leading);
    let before = input.tree.child_of(0, start + leading - 1);
    assert(pending[leading].node == leader);
    input.lemma_siblings(0, start + leading - 1, start + leading);
    input.lemma_siblings(0, start + leading, index);
    newline_count_grows(
        input.bytes(),
        input.tree.end_of(before),
        input.tree.start_of(leader),
        input.tree.start_of(declaration),
    );
    if leading > 0 {
        assert(pending[leading - 1].node == before);
    }
    assert(newlines_to_declaration(input, pending, previous, declaration)
        >= pending[leading].newlines);
    if follows_paragraph {
        let head = gap.drop_last();
        assert(gap.last() == Doc::Leaf(Element::BlankLine));
        assert(gap[gap.len() - 1] == Doc::Leaf(Element::BlankLine));
        if wants_two_blank_lines(input, previous, declaration) {
            assert(gap =~= blank_lines(option) + blank_line());
        } else {
            assert(gap =~= hard_line() + blank_line());
        }
        assert(is_blank(gap));
    } else if wants_two_blank_lines(input, previous, declaration) {
        assert(gap =~= blank_lines(option));
    }
}

/// The paragraph of pending nodes, with what stands in front of it.
spec fn paragraph_docs(
    input: ParseInput,
    pending: Seq<Pending>,
    previous: Option<int>,
    declaration: int,
) -> Seq<Doc> {
    let leading = leading_start(input, pending, previous, declaration);
    let attached = attached_end(pending, 0, leading, previous is Some);
    if attached != leading {
        (if previous is Some || attached > 0 {
            paragraph_gap_docs(input, pending, previous, declaration, attached)
        } else {
            nothing()
        }) + pending_docs(input, pending, attached, leading, false)
    } else {
        nothing()
    }
}

/// What stands behind the paragraph of pending nodes.
spec fn ending_docs(
    input: ParseInput,
    pending: Seq<Pending>,
    previous: Option<int>,
    declaration: int,
) -> Seq<Doc> {
    let count = pending.len() as int;
    let leading = leading_start(input, pending, previous, declaration);
    let attached = attached_end(pending, 0, leading, previous is Some);
    if leading == count {
        if attached != leading {
            after_paragraph_docs(input, pending, previous, declaration)
        } else {
            attached_gap_docs(input, pending, previous, declaration)
        }
    } else {
        leading_gap(input, pending, previous, declaration, attached != leading) + pending_docs(
            input,
            pending,
            leading,
            count,
            false,
        ) + hard_line()
    }
}

/// What stands in front of a declaration has three parts.
proof fn lemma_parts(
    input: ParseInput,
    pending: Seq<Pending>,
    previous: Option<int>,
    declaration: int,
)
    requires
        pending.len() > 0,
    ensures
        ({
            let leading = leading_start(input, pending, previous, declaration);
            let attached = attached_end(pending, 0, leading, previous is Some);
            declaration_gap_docs(input, pending, previous, declaration) == pending_docs(
                input,
                pending,
                0,
                attached,
                previous is Some,
            ) + paragraph_docs(input, pending, previous, declaration) + ending_docs(
                input,
                pending,
                previous,
                declaration,
            )
        }),
{
    reveal(declaration_gap_docs);
}

/// Behind the last pending node stands what may stand in front of the
/// declaration.
proof fn lemma_last_gap(
    input: ParseInput,
    index: int,
    previous: Option<int>,
    pending: Seq<Pending>,
)
    requires
        is_plain_script(input),
        is_state(input, index, previous, pending),
        index < input.tree.child_count_of(0),
        !leads(top_kind(input, index)),
        pending.len() > 0,
    ensures
        ({
            let declaration = input.tree.child_of(0, index);
            if leading_start(input, pending, previous, declaration) == pending.len() {
                is_top_level_gap(
                    input,
                    index - 1,
                    ending_docs(input, pending, previous, declaration),
                )
            } else {
                is_top_level_gap(input, index - 1, hard_line())
            }
        }),
{
    let declaration = input.tree.child_of(0, index);
    let count = pending.len() as int;
    let k = index - 1;
    let newlines = newlines_behind(input, k);
    assert forall|i: int|
        #![trigger pending[i]]
        0 <= i < pending.len() implies leads(input.tree.kind_of(pending[i].node)) by {}
    lemma_lines();
    lemma_blank_lines(input.blank_lines_around_definitions as int);
    lemma_leading_block(input, pending, count);
    let leading = leading_start(input, pending, previous, declaration);
    lemma_attached(pending, 0, leading, previous is Some);
    assert(pending[count - 1].node == input.tree.child_of(0, k));
    assert(pending.last() == pending[count - 1]);
    if k > 0 {
        assert(pending[count - 1].newlines == newlines_behind(input, k - 1));
    }
    assert(newlines == newlines_between(input, pending.last().node, declaration));
    if leading == count {
        assert(newlines_to_declaration(input, pending, previous, declaration) == newlines);
    }
    exports_go_on_the_line(input, pending.last().node);
    if count > 1 {
        assert(pending[count - 2].node == input.tree.child_of(0, k - 1));
    }
}

/// A paragraph of pending nodes stands behind what may stand in front of it.
proof fn lemma_paragraph_row(
    input: ParseInput,
    index: int,
    previous: Option<int>,
    pending: Seq<Pending>,
    head: Seq<Doc>,
    first: Seq<Doc>,
    at: int,
)
    requires
        is_plain_script(input),
        is_state(input, index, previous, pending),
        index < input.tree.child_count_of(0),
        0 <= at < pending.len(),
        ({
            let declaration = input.tree.child_of(0, index);
            let leading = leading_start(input, pending, previous, declaration);
            at == attached_end(pending, 0, leading, previous is Some) && at < leading
        }),
        at == 0 ==> previous is Some,
        first == node_docs(input, input.tree.child_of(0, index - pending.len() + at - 1)),
    ensures
        ({
            let declaration = input.tree.child_of(0, index);
            follow_each_other(
                input,
                head + first + paragraph_docs(input, pending, previous, declaration),
                index - pending.len() + at - 1,
            )
        }),
{
    let declaration = input.tree.child_of(0, index);
    let count = pending.len() as int;
    let k = index - count + at - 1;
    let leading = leading_start(input, pending, previous, declaration);
    lemma_leading_block_start(input, pending, count);
    lemma_attached(pending, 0, leading, previous is Some);
    lemma_lines();
    assert(pending[at].node == input.tree.child_of(0, k + 1));
    if at > 0 {
        assert(pending[at - 1].node == input.tree.child_of(0, k));
    }
    let gap = paragraph_gap_docs(input, pending, previous, declaration, at);
    let second = node_docs(input, pending[at].node);
    let rest = pending_docs(input, pending, at + 1, leading, true);
    assert(gap =~= hard_and_blank_line() || gap =~= blank_line() + blank_line());
    assert(is_top_level_gap(input, k, gap));
    assert(pending_docs(input, pending, at, leading, false) =~= second + rest);
    assert(head + first + paragraph_docs(input, pending, previous, declaration) =~= head + first
        + gap + second + rest);
    lemma_row(head, first, gap, second, rest);
}

/// The leading block stands behind what may stand in front of it.
proof fn lemma_leading_row(
    input: ParseInput,
    index: int,
    previous: Option<int>,
    pending: Seq<Pending>,
    head: Seq<Doc>,
    first: Seq<Doc>,
    at: int,
)
    requires
        is_plain_script(input),
        is_state(input, index, previous, pending),
        index < input.tree.child_count_of(0),
        0 <= at < pending.len(),
        at == leading_start(input, pending, previous, input.tree.child_of(0, index)),
        previous is Some,
        first == node_docs(input, input.tree.child_of(0, index - pending.len() + at - 1)),
    ensures
        ({
            let declaration = input.tree.child_of(0, index);
            follow_each_other(
                input,
                head + first + ending_docs(input, pending, previous, declaration),
                index - pending.len() + at - 1,
            )
        }),
{
    let declaration = input.tree.child_of(0, index);
    let count = pending.len() as int;
    let k = index - count + at - 1;
    let attached = attached_end(pending, 0, at, previous is Some);
    assert forall|i: int|
        #![trigger pending[i]]
        0 <= i < pending.len() implies leads(input.tree.kind_of(pending[i].node)) by {}
    lemma_leading_block(input, pending, count);
    lemma_leading_gap(input, index, previous, pending, attached != at);
    assert(pending[at].node == input.tree.child_of(0, k + 1));
    if at > 0 {
        assert(pending[at - 1].node == input.tree.child_of(0, k));
        assert(pending[at - 1].newlines == newlines_behind(input, k - 1));
    }
    let gap = leading_gap(input, pending, previous, declaration, attached != at);
    let second = node_docs(input, pending[at].node);
    let rest = pending_docs(input, pending, at + 1, count, true) + hard_line();
    assert(is_top_level_gap(input, k, gap));
    assert(pending_docs(input, pending, at, count, false) =~= second + pending_docs(
        input,
        pending,
        at + 1,
        count,
        true,
    ));
    assert(head + first + ending_docs(input, pending, previous, declaration) =~= head + first + gap
        + second + rest);
    lemma_row(head, first, gap, second, rest);
}

/// What stands in front of a declaration ends with the last node of a part.
proof fn lemma_part_ends(
    input: ParseInput,
    pending: Seq<Pending>,
    previous: Option<int>,
    declaration: int,
) -> (front: Seq<Doc>)
    requires
        ({
            let leading = leading_start(input, pending, previous, declaration);
            let attached = attached_end(pending, 0, leading, previous is Some);
            0 < leading && 0 <= attached <= leading
        }),
    ensures
        ({
            let leading = leading_start(input, pending, previous, declaration);
            let attached = attached_end(pending, 0, leading, previous is Some);
            pending_docs(input, pending, 0, attached, previous is Some) + paragraph_docs(
                input,
                pending,
                previous,
                declaration,
            ) == front + node_docs(input, pending[leading - 1].node)
        }),
{
    let leading = leading_start(input, pending, previous, declaration);
    let attached = attached_end(pending, 0, leading, previous is Some);
    if attached == leading {
        lemma_pending_last(input, pending, 0, leading, previous is Some)
    } else {
        let inner = lemma_pending_last(input, pending, attached, leading, false);
        pending_docs(input, pending, 0, attached, previous is Some) + (if previous is Some
            || attached > 0 {
            paragraph_gap_docs(input, pending, previous, declaration, attached)
        } else {
            nothing()
        }) + inner
    }
}

/// Documents one after the other, however they are put together.
proof fn lemma_sum(
    head: Seq<Doc>,
    first: Seq<Doc>,
    second: Seq<Doc>,
    third: Seq<Doc>,
    target: Seq<Doc>,
)
    ensures
        head + (first + second + third) + target == head + first + (second + third) + target,
        head + (first + second + third) + target == head + first + second + third + target,
{
}

/// Children that follow each other do so with more documents behind them.
proof fn lemma_follow_in_four(
    input: ParseInput,
    front: Seq<Doc>,
    first: Seq<Doc>,
    second: Seq<Doc>,
    third: Seq<Doc>,
    target: Seq<Doc>,
    index: int,
)
    requires
        follow_each_other(input, front + first + second, index) || follow_each_other(
            input,
            first + second,
            index,
        ),
    ensures
        follow_each_other(input, front + first + second + third + target, index),
{
    if follow_each_other(input, front + first + second, index) {
        lemma_follow_inside(input, nothing(), front + first + second, third + target, index);
    } else {
        lemma_follow_inside(input, front, first + second, third + target, index);
    }
}

/// The previous declaration is followed by the first pending node.
#[verifier::rlimit(40)]
proof fn lemma_row_at_start(
    input: ParseInput,
    index: int,
    previous: Option<int>,
    pending: Seq<Pending>,
)
    requires
        is_plain_script(input),
        is_state(input, index, previous, pending),
        index < input.tree.child_count_of(0),
        !leads(top_kind(input, index)),
        previous is Some,
        pending.len() > 0,
    ensures
        follow_each_other(
            input,
            node_docs(input, previous->0) + declaration_gap_docs(
                input,
                pending,
                previous,
                input.tree.child_of(0, index),
            ) + node_docs(input, input.tree.child_of(0, index)),
            index - pending.len() - 1,
        ),
{
    let declaration = input.tree.child_of(0, index);
    let count = pending.len() as int;
    let target = node_docs(input, declaration);
    let gap_docs = declaration_gap_docs(input, pending, previous, declaration);
    assert forall|i: int|
        #![trigger pending[i]]
        0 <= i < pending.len() implies leads(input.tree.kind_of(pending[i].node)) by {}
    lemma_leading_block(input, pending, count);
    let leading = leading_start(input, pending, previous, declaration);
    let attached = attached_end(pending, 0, leading, previous is Some);
    lemma_attached(pending, 0, leading, previous is Some);
    lemma_parts(input, pending, previous, declaration);
    let first_part = pending_docs(input, pending, 0, attached, previous is Some);
    let paragraph = paragraph_docs(input, pending, previous, declaration);
    let ending = ending_docs(input, pending, previous, declaration);
    let head = node_docs(input, previous->0);
    let k = index - count - 1;
    if attached > 0 {
        lemma_first_row(input, index, previous, pending);
        lemma_follow_in_four(input, nothing(), head, first_part, paragraph + ending, target, k);
        lemma_sum(head, first_part, paragraph, ending, target);
    } else if leading > 0 {
        lemma_paragraph_row(input, index, previous, pending, nothing(), head, 0);
        lemma_follow_in_four(input, nothing(), head, paragraph, ending, target, k);
        assert(first_part == nothing());
        lemma_sum(head, first_part, paragraph, ending, target);
    } else {
        lemma_leading_row(input, index, previous, pending, nothing(), head, 0);
        lemma_follow_in_four(input, nothing(), head, ending, nothing(), target, k);
        assert(first_part == nothing() && paragraph == nothing());
        lemma_sum(head, first_part, paragraph, ending, target);
    }
}

/// A pending node is followed by the next one.
#[verifier::rlimit(40)]
proof fn lemma_row_inside_pending(
    input: ParseInput,
    index: int,
    previous: Option<int>,
    pending: Seq<Pending>,
    at: int,
)
    requires
        is_plain_script(input),
        is_state(input, index, previous, pending),
        index < input.tree.child_count_of(0),
        !leads(top_kind(input, index)),
        0 < at < pending.len(),
    ensures
        follow_each_other(
            input,
            nothing() + declaration_gap_docs(
                input,
                pending,
                previous,
                input.tree.child_of(0, index),
            ) + node_docs(input, input.tree.child_of(0, index)),
            index - pending.len() + at - 1,
        ),
{
    let declaration = input.tree.child_of(0, index);
    let count = pending.len() as int;
    let target = node_docs(input, declaration);
    let gap_docs = declaration_gap_docs(input, pending, previous, declaration);
    assert forall|i: int|
        #![trigger pending[i]]
        0 <= i < pending.len() implies leads(input.tree.kind_of(pending[i].node)) by {}
    lemma_leading_block(input, pending, count);
    let leading = leading_start(input, pending, previous, declaration);
    let attached = attached_end(pending, 0, leading, previous is Some);
    lemma_attached(pending, 0, leading, previous is Some);
    lemma_parts(input, pending, previous, declaration);
    let first_part = pending_docs(input, pending, 0, attached, previous is Some);
    let paragraph = paragraph_docs(input, pending, previous, declaration);
    let ending = ending_docs(input, pending, previous, declaration);
    let k = index - count + at - 1;
    let first = node_docs(input, pending[at - 1].node);
    assert(pending[at - 1].node == input.tree.child_of(0, k));
    lemma_sum(nothing(), first_part, paragraph, ending, target);
    if at < attached || attached < at < leading || leading < at {
        lemma_inner_row(input, index, previous, pending, at);
    } else if attached < leading && at == attached {
        let front = lemma_pending_last(input, pending, 0, at, previous is Some);
        lemma_paragraph_row(input, index, previous, pending, front, first, at);
        lemma_follow_in_four(input, front, first, paragraph, ending, target, k);
    } else {
        let front = lemma_part_ends(input, pending, previous, declaration);
        lemma_leading_row(input, index, previous, pending, front, first, at);
        lemma_follow_in_four(input, front, first, ending, nothing(), target, k);
    }
}

/// The last pending node is followed by the declaration.
#[verifier::rlimit(40)]
proof fn lemma_row_at_end(
    input: ParseInput,
    index: int,
    previous: Option<int>,
    pending: Seq<Pending>,
)
    requires
        is_plain_script(input),
        is_state(input, index, previous, pending),
        index < input.tree.child_count_of(0),
        !leads(top_kind(input, index)),
        pending.len() > 0,
    ensures
        follow_each_other(
            input,
            nothing() + declaration_gap_docs(
                input,
                pending,
                previous,
                input.tree.child_of(0, index),
            ) + node_docs(input, input.tree.child_of(0, index)),
            index - 1,
        ),
{
    let declaration = input.tree.child_of(0, index);
    let count = pending.len() as int;
    let target = node_docs(input, declaration);
    let gap_docs = declaration_gap_docs(input, pending, previous, declaration);
    assert forall|i: int|
        #![trigger pending[i]]
        0 <= i < pending.len() implies leads(input.tree.kind_of(pending[i].node)) by {}
    lemma_leading_block(input, pending, count);
    let leading = leading_start(input, pending, previous, declaration);
    let attached = attached_end(pending, 0, leading, previous is Some);
    lemma_attached(pending, 0, leading, previous is Some);
    lemma_parts(input, pending, previous, declaration);
    let first_part = pending_docs(input, pending, 0, attached, previous is Some);
    let paragraph = paragraph_docs(input, pending, previous, declaration);
    let ending = ending_docs(input, pending, previous, declaration);
    let first = node_docs(input, pending[count - 1].node);
    assert(pending[count - 1].node == input.tree.child_of(0, index - 1));
    lemma_last_gap(input, index, previous, pending);
    lemma_sum(nothing(), first_part, paragraph, ending, target);
    if leading == count {
        let front = lemma_part_ends(input, pending, previous, declaration);
        lemma_glue(first_part + paragraph, front, first, ending, target);
    } else {
        let inner = lemma_pending_last(input, pending, leading, count, false);
        let gap = leading_gap(input, pending, previous, declaration, attached != leading);
        lemma_glue_block(first_part + paragraph, gap, inner, first, target);
    }
}

/// Documents that end with a part, a gap, and a second part.
proof fn lemma_glue(
    parts: Seq<Doc>,
    front: Seq<Doc>,
    first: Seq<Doc>,
    gap: Seq<Doc>,
    target: Seq<Doc>,
)
    requires
        parts == front + first,
    ensures
        in_a_row(nothing() + (parts + gap) + target, first, gap, target),
{
    lemma_row(front, first, gap, target, nothing());
    assert(nothing() + (parts + gap) + target =~= front + first + gap + target + nothing());
}

/// Documents that end with a block, a line break, and a second part.
proof fn lemma_glue_block(
    parts: Seq<Doc>,
    gap: Seq<Doc>,
    inner: Seq<Doc>,
    first: Seq<Doc>,
    target: Seq<Doc>,
)
    ensures
        in_a_row(
            nothing() + (parts + (gap + (inner + first) + hard_line())) + target,
            first,
            hard_line(),
            target,
        ),
{
    let front = parts + gap + inner;
    lemma_row(front, first, hard_line(), target, nothing());
    assert(nothing() + (parts + (gap + (inner + first) + hard_line())) + target =~= front + first
        + hard_line() + target + nothing());
}

/// In front of a declaration, one thing follows another: from the previous
/// declaration over what is pending to the declaration.
proof fn lemma_declaration_row(
    input: ParseInput,
    index: int,
    previous: Option<int>,
    pending: Seq<Pending>,
    at: int,
)
    requires
        is_plain_script(input),
        is_state(input, index, previous, pending),
        index < input.tree.child_count_of(0),
        !leads(top_kind(input, index)),
        0 <= at <= pending.len(),
        at == 0 ==> previous is Some && top_kind(input, index - pending.len() - 1)
            != GDScriptNodeKind::SemiColon,
    ensures
        follow_each_other(
            input,
            (if at == 0 {
                node_docs(input, previous->0)
            } else {
                nothing()
            }) + declaration_gap_docs(
                input,
                pending,
                previous,
                input.tree.child_of(0, index),
            ) + node_docs(input, input.tree.child_of(0, index)),
            index - pending.len() + at - 1,
        ),
{
    if pending.len() == 0 {
        lemma_plain_row(input, index, previous);
        assert(pending =~= Seq::empty());
    } else if at == 0 {
        lemma_row_at_start(input, index, previous, pending);
    } else if at < pending.len() {
        lemma_row_inside_pending(input, index, previous, pending, at);
    } else {
        lemma_row_at_end(input, index, previous, pending);
    }
}

/// Two declarations without anything between them.
proof fn lemma_plain_row(input: ParseInput, index: int, previous: Option<int>)
    requires
        is_plain_script(input),
        is_state(input, index, previous, Seq::empty()),
        index < input.tree.child_count_of(0),
        !leads(top_kind(input, index)),
        previous is Some,
        top_kind(input, index - 1) != GDScriptNodeKind::SemiColon,
    ensures
        follow_each_other(
            input,
            node_docs(input, previous->0) + declaration_gap_docs(
                input,
                Seq::empty(),
                previous,
                input.tree.child_of(0, index),
            ) + node_docs(input, input.tree.child_of(0, index)),
            index - 1,
        ),
{
    reveal(declaration_gap_docs);
    reveal(plain_gap_docs);
    let declaration = input.tree.child_of(0, index);
    let gap = plain_gap_docs(input, previous, declaration);
    let first = node_docs(input, previous->0);
    let target = node_docs(input, declaration);
    lemma_lines();
    lemma_blank_lines(input.blank_lines_around_definitions as int);
    lemma_newlines(newlines_behind(input, index - 1));
    assert(is_top_level_gap(input, index - 1, gap));
    assert(first + gap + target =~= nothing() + first + gap + target + nothing());
    lemma_row(nothing(), first, gap, target, nothing());
}

/// The first pending node, attached to the previous declaration.
proof fn lemma_first_row(
    input: ParseInput,
    index: int,
    previous: Option<int>,
    pending: Seq<Pending>,
)
    requires
        is_plain_script(input),
        is_state(input, index, previous, pending),
        index < input.tree.child_count_of(0),
        pending.len() > 0,
        previous is Some,
        ({
            let leading = leading_start(input, pending, previous, input.tree.child_of(0, index));
            attached_end(pending, 0, leading, true) > 0
        }),
    ensures
        ({
            let leading = leading_start(input, pending, previous, input.tree.child_of(0, index));
            follow_each_other(
                input,
                node_docs(input, previous->0) + pending_docs(
                    input,
                    pending,
                    0,
                    attached_end(pending, 0, leading, true),
                    true,
                ),
                index - pending.len() - 1,
            )
        }),
{
    let leading = leading_start(input, pending, previous, input.tree.child_of(0, index));
    let attached = attached_end(pending, 0, leading, true);
    let k = index - pending.len() - 1;
    let first = node_docs(input, previous->0);
    let gap = newlines_docs(pending[0].newlines);
    let second = node_docs(input, pending[0].node);
    let rest = pending_docs(input, pending, 1, attached, true);
    lemma_newlines(pending[0].newlines);
    lemma_lines();
    assert(pending[0].node == input.tree.child_of(0, k + 1));
    assert(is_top_level_gap(input, k, gap));
    assert(pending_docs(input, pending, 0, attached, true) == gap + second + rest);
    assert(first + (gap + second + rest) =~= nothing() + first + gap + second + rest);
    lemma_row(nothing(), first, gap, second, rest);
}

/// In front of a declaration, pending nodes in the same part follow each other.
#[verifier::rlimit(40)]
proof fn lemma_inner_row(
    input: ParseInput,
    index: int,
    previous: Option<int>,
    pending: Seq<Pending>,
    at: int,
)
    requires
        is_plain_script(input),
        is_state(input, index, previous, pending),
        index < input.tree.child_count_of(0),
        0 < at < pending.len(),
        ({
            let declaration = input.tree.child_of(0, index);
            let leading = leading_start(input, pending, previous, declaration);
            let attached = attached_end(pending, 0, leading, previous is Some);
            at < attached || attached < at < leading || leading < at
        }),
    ensures
        follow_each_other(
            input,
            nothing() + declaration_gap_docs(
                input,
                pending,
                previous,
                input.tree.child_of(0, index),
            ) + node_docs(input, input.tree.child_of(0, index)),
            index - pending.len() + at - 1,
        ),
{
    reveal(declaration_gap_docs);
    let declaration = input.tree.child_of(0, index);
    let count = pending.len() as int;
    let k = index - count + at - 1;
    let leading = leading_start(input, pending, previous, declaration);
    let attached = attached_end(pending, 0, leading, previous is Some);
    let separates = previous is Some;
    let target = node_docs(input, declaration);
    let all = nothing() + declaration_gap_docs(input, pending, previous, declaration) + target;
    assert forall|i: int|
        #![trigger pending[i]]
        0 <= i < pending.len() implies leads(input.tree.kind_of(pending[i].node)) by {}
    lemma_leading_block(input, pending, count);
    lemma_attached(pending, 0, leading, separates);
    assert(pending[at - 1].node == input.tree.child_of(0, k));
    assert(pending[at].node == input.tree.child_of(0, k + 1));
    let gap = newlines_docs(pending[at].newlines);
    lemma_newlines(pending[at].newlines);
    lemma_lines();
    assert(is_top_level_gap(input, k, gap));
    let first = node_docs(input, pending[at - 1].node);
    let second = node_docs(input, pending[at].node);
    let first_part = pending_docs(input, pending, 0, attached, separates);
    let second_part = pending_docs(input, pending, attached, leading, false);
    let third_part = pending_docs(input, pending, leading, count, false);
    let follows_paragraph = attached != leading;
    let paragraph_gap = if separates || attached > 0 {
        paragraph_gap_docs(input, pending, previous, declaration, attached)
    } else {
        nothing()
    };
    let paragraph = if follows_paragraph {
        paragraph_gap + second_part
    } else {
        nothing()
    };
    let ending = if leading == count {
        if follows_paragraph {
            after_paragraph_docs(input, pending, previous, declaration)
        } else {
            attached_gap_docs(input, pending, previous, declaration)
        }
    } else {
        leading_gap(input, pending, previous, declaration, follows_paragraph) + third_part
            + hard_line()
    };
    assert(all =~= first_part + paragraph + ending + target);
    if at < attached {
        lemma_pending_row(input, pending, 0, at, attached, separates);
        assert(all =~= nothing() + first_part + (paragraph + ending + target));
        lemma_row_inside(nothing(), first_part, paragraph + ending + target, first, gap, second);
    } else if attached < at < leading {
        lemma_pending_row(input, pending, attached, at, leading, false);
        assert(all =~= (first_part + paragraph_gap) + second_part + (ending + target));
        lemma_row_inside(
            first_part + paragraph_gap,
            second_part,
            ending + target,
            first,
            gap,
            second,
        );
    } else {
        let front = first_part + paragraph + leading_gap(
            input,
            pending,
            previous,
            declaration,
            follows_paragraph,
        );
        lemma_pending_row(input, pending, leading, at, count, false);
        assert(all =~= front + third_part + (hard_line() + target));
        lemma_row_inside(front, third_part, hard_line() + target, first, gap, second);
    }
}

/// More documents around those in which children follow each other.
proof fn lemma_follow_inside(
    input: ParseInput,
    before: Seq<Doc>,
    docs: Seq<Doc>,
    after: Seq<Doc>,
    index: int,
)
    requires
        follow_each_other(input, docs, index),
    ensures
        follow_each_other(input, before + docs + after, index),
{
    let first = node_docs(input, input.tree.child_of(0, index));
    let second = node_docs(input, input.tree.child_of(0, index + 1));
    let gap = choose|gap: Seq<Doc>|
        is_top_level_gap(input, index, gap) && #[trigger] in_a_row(docs, first, gap, second);
    lemma_row_inside(before, docs, after, first, gap, second);
}

/// What is pending at the end of a script.
proof fn lemma_end_row(
    input: ParseInput,
    index: int,
    previous: Option<int>,
    pending: Seq<Pending>,
    k: int,
)
    requires
        is_plain_script(input),
        is_state(input, index, previous, pending),
        index - pending.len() - 1 <= k,
        0 <= k,
        k + 1 < index,
        top_kind(input, k) != GDScriptNodeKind::SemiColon,
    ensures
        follow_each_other(
            input,
            (if k == index - pending.len() - 1 {
                node_docs(input, input.tree.child_of(0, k))
            } else {
                nothing()
            }) + pending_docs(input, pending, 0, pending.len() as int, previous is Some),
            k,
        ),
{
    let count = pending.len() as int;
    let at = k + 1 - (index - count);
    let docs = pending_docs(input, pending, 0, count, previous is Some);
    let gap = newlines_docs(pending[at].newlines);
    let second = node_docs(input, pending[at].node);
    lemma_newlines(pending[at].newlines);
    lemma_lines();
    assert(pending[at].node == input.tree.child_of(0, k + 1));
    assert(is_top_level_gap(input, k, gap));
    if at == 0 {
        let first = node_docs(input, input.tree.child_of(0, k));
        let rest = pending_docs(input, pending, 1, count, true);
        assert(docs == gap + second + rest);
        assert(first + docs =~= nothing() + first + gap + second + rest);
        lemma_row(nothing(), first, gap, second, rest);
    } else {
        let first = node_docs(input, pending[at - 1].node);
        assert(pending[at - 1].node == input.tree.child_of(0, k));
        lemma_pending_row(input, pending, 0, at, count, previous is Some);
        assert(nothing() + docs =~= docs);
    }
}

/// From a child on, the children of the root follow each other.
proof fn lemma_source_row(
    input: ParseInput,
    index: int,
    previous: Option<int>,
    pending: Seq<Pending>,
    k: int,
)
    requires
        is_plain_script(input),
        is_state(input, index, previous, pending),
        index - pending.len() - 1 <= k,
        0 <= k,
        k + 1 < input.tree.child_count_of(0),
        top_kind(input, k) != GDScriptNodeKind::SemiColon,
        top_kind(input, k + 1) != GDScriptNodeKind::SemiColon,
    ensures
        follow_each_other(
            input,
            (if k == index - pending.len() - 1 {
                node_docs(input, input.tree.child_of(0, k))
            } else {
                nothing()
            }) + source_from(input, index, previous, pending),
            k,
        ),
    decreases input.tree.children_left(0, index),
{
    reveal(source_from);
    let head = if k == index - pending.len() - 1 {
        node_docs(input, input.tree.child_of(0, k))
    } else {
        nothing()
    };
    if index >= input.tree.child_count_of(0) {
        lemma_end_row(input, index, previous, pending, k);
    } else {
        let child = input.tree.child_of(0, index);
        let kind = top_kind(input, index);
        assert(overlap(input, 0, index) is Clear);
        if kind == GDScriptNodeKind::SemiColon {
            if pending.len() > 0 {
                let last = pending.len() - 1;
                assert(pending[last].node == input.tree.child_of(0, index - 1));
                assert(!leads_semicolon(input, index - 1));
            }
            assert(is_state(input, index + 1, Some(child), Seq::empty()));
            assert(pending =~= Seq::empty());
            let rest = source_from(input, index + 1, Some(child), Seq::empty());
            lemma_source_row(input, index + 1, Some(child), Seq::empty(), k);
            assert(nothing() + rest =~= rest);
            lemma_follow_inside(input, head + hard_line(), rest, nothing(), k);
            assert(head + source_from(input, index, previous, pending) =~= head + hard_line() + rest
                + nothing());
        } else if leads(kind) {
            let waiting = pending.push(
                Pending {
                    node: child,
                    newlines: newlines_before_pending(input, pending, previous, child),
                },
            );
            lemma_push(input, index, previous, pending);
            lemma_source_row(input, index + 1, previous, waiting, k);
        } else {
            let gap = declaration_gap_docs(input, pending, previous, child);
            let target = node_docs(input, child);
            let rest = source_from(input, index + 1, Some(child), Seq::empty());
            assert(is_state(input, index + 1, Some(child), Seq::empty()));
            assert(source_from(input, index, previous, pending) == gap + target + rest);
            if k < index {
                let at = k + 1 - (index - pending.len());
                lemma_declaration_row(input, index, previous, pending, at);
                lemma_follow_inside(input, nothing(), head + gap + target, rest, k);
                assert(head + (gap + target + rest) =~= nothing() + (head + gap + target) + rest);
            } else {
                lemma_source_row(input, index + 1, Some(child), Seq::empty(), k);
                if k == index {
                    lemma_follow_inside(input, head + gap, target + rest, nothing(), k);
                    assert(head + (gap + target + rest) =~= (head + gap) + (target + rest)
                        + nothing());
                } else {
                    assert(nothing() + rest =~= rest);
                    lemma_follow_inside(input, head + gap + target, rest, nothing(), k);
                    assert(head + (gap + target + rest) =~= (head + gap + target) + rest
                        + nothing());
                }
            }
        }
    }
}

/// The declarations of a script follow each other in the order of the source,
/// and what stands between a declaration and the next one, or the comments and
/// annotations around them, is what may stand there: nothing ends up in a
/// comment, no blank line gets lost, definitions are set apart, and a comment
/// stays with what it is about.
pub proof fn declarations_follow_each_other(input: ParseInput, index: int)
    requires
        is_plain_script(input),
        0 <= index,
        index + 1 < input.tree.child_count_of(0),
        top_kind(input, index) != GDScriptNodeKind::SemiColon,
        top_kind(input, index + 1) != GDScriptNodeKind::SemiColon,
    ensures
        follow_each_other(input, source_docs(input), index),
{
    assert(is_state(input, 0, None, Seq::empty()));
    lemma_source_row(input, 0, None, Seq::empty(), index);
    assert(nothing() + source_from(input, 0, None, Seq::empty()) =~= source_docs(input));
}

/// A comment ends its line: where the source has a newline behind a comment on
/// the top level, as it always has, a line break follows the comment, and then
/// what stands behind it.
pub proof fn comments_end_their_line(input: ParseInput, index: int)
    requires
        is_plain_script(input),
        0 <= index,
        index + 1 < input.tree.child_count_of(0),
        top_kind(input, index) == GDScriptNodeKind::Comment,
        newlines_behind(input, index) >= 1,
    ensures
        exists|gap: Seq<Doc>|
            is_blank(gap) && has_line_break(gap) && (newlines_behind(input, index) >= 2
                ==> has_blank_line(gap)) && #[trigger] in_a_row(
                source_docs(input),
                node_docs(input, input.tree.child_of(0, index)),
                gap,
                node_docs(input, input.tree.child_of(0, index + 1)),
            ),
{
    assert(!leads_semicolon(input, index));
    declarations_follow_each_other(input, index);
}

/// A script starts with its first child, without anything in front of it.
pub proof fn scripts_start_with_their_first_child(input: ParseInput)
    requires
        is_plain_script(input),
        input.tree.child_count_of(0) > 0,
        top_kind(input, 0) != GDScriptNodeKind::SemiColon,
    ensures
        exists|after: Seq<Doc>|
            source_docs(input) == #[trigger] (node_docs(input, input.tree.child_of(0, 0)) + after),
{
    lemma_first(input, 0, Seq::empty());
}

/// The first child of the root comes first.
proof fn lemma_first(input: ParseInput, index: int, pending: Seq<Pending>)
    requires
        is_plain_script(input),
        is_state(input, index, None, pending),
        input.tree.child_count_of(0) > 0,
        top_kind(input, 0) != GDScriptNodeKind::SemiColon,
    ensures
        exists|after: Seq<Doc>|
            source_from(input, index, None, pending) == #[trigger] (node_docs(
                input,
                input.tree.child_of(0, 0),
            ) + after),
    decreases input.tree.children_left(0, index),
{
    reveal(source_from);
    let first = node_docs(input, input.tree.child_of(0, 0));
    let count = pending.len() as int;
    assert(count == index);
    if index >= input.tree.child_count_of(0) {
        assert(pending[0].node == input.tree.child_of(0, 0));
        let rest = pending_docs(input, pending, 1, count, true);
        assert(pending_docs(input, pending, 0, count, false) =~= first + rest);
    } else {
        let child = input.tree.child_of(0, index);
        let kind = top_kind(input, index);
        assert(overlap(input, 0, index) is Clear);
        if leads(kind) {
            let waiting = pending.push(
                Pending {
                    node: child,
                    newlines: newlines_before_pending(input, pending, None, child),
                },
            );
            lemma_push(input, index, None, pending);
            lemma_first(input, index + 1, waiting);
        } else {
            if count > 0 {
                assert(pending[count - 1].node == input.tree.child_of(0, index - 1));
                assert(!leads_semicolon(input, index - 1));
            }
            reveal(declaration_gap_docs);
            reveal(plain_gap_docs);
            let gap = declaration_gap_docs(input, pending, None, child);
            let rest = source_from(input, index + 1, Some(child), Seq::empty());
            let all = gap + node_docs(input, child) + rest;
            assert(source_from(input, index, None, pending) == all);
            if count == 0 {
                assert(gap == nothing());
                assert(all =~= first + rest);
            } else {
                assert(leading_start(input, pending, None, child) == count);
                lemma_attached(pending, 0, count, false);
                let attached = attached_end(pending, 0, count, false);
                assert(attached > 0);
                assert(pending[0].node == input.tree.child_of(0, 0));
                let others = pending_docs(input, pending, 1, attached, true);
                assert(pending_docs(input, pending, 0, attached, false) =~= first + others);
                let behind = all.skip(first.len() as int);
                assert(all =~= first + behind);
            }
        }
    }
}

/// Where a declaration is laid out, what follows it comes right behind.
proof fn lemma_behind(
    input: ParseInput,
    index: int,
    previous: Option<int>,
    pending: Seq<Pending>,
    k: int,
) -> (front: Seq<Doc>)
    requires
        is_plain_script(input),
        is_state(input, index, previous, pending),
        index <= k < input.tree.child_count_of(0),
        !leads(top_kind(input, k)),
        top_kind(input, k) != GDScriptNodeKind::SemiColon,
    ensures
        source_from(input, index, previous, pending) == front + node_docs(
            input,
            input.tree.child_of(0, k),
        ) + source_from(input, k + 1, Some(input.tree.child_of(0, k)), Seq::empty()),
        is_state(input, k + 1, Some(input.tree.child_of(0, k)), Seq::empty()),
    decreases input.tree.children_left(0, index),
{
    reveal(source_from);
    let child = input.tree.child_of(0, index);
    let kind = top_kind(input, index);
    assert(overlap(input, 0, index) is Clear);
    if kind == GDScriptNodeKind::SemiColon {
        if pending.len() > 0 {
            let last = pending.len() - 1;
            assert(pending[last].node == input.tree.child_of(0, index - 1));
            assert(!leads_semicolon(input, index - 1));
        }
        assert(pending =~= Seq::empty());
        assert(is_state(input, index + 1, Some(child), Seq::empty()));
        let front = lemma_behind(input, index + 1, Some(child), Seq::empty(), k);
        hard_line() + front
    } else if leads(kind) {
        let waiting = pending.push(
            Pending {
                node: child,
                newlines: newlines_before_pending(input, pending, previous, child),
            },
        );
        lemma_push(input, index, previous, pending);
        lemma_behind(input, index + 1, previous, waiting, k)
    } else {
        let gap = declaration_gap_docs(input, pending, previous, child);
        assert(is_state(input, index + 1, Some(child), Seq::empty()));
        if index == k {
            gap
        } else {
            let front = lemma_behind(input, index + 1, Some(child), Seq::empty(), k);
            gap + node_docs(input, child) + front
        }
    }
}

/// A semicolon between two declarations becomes a line break, and is gone itself.
/// Blank lines follow in front of a definition, and nothing in front of others.
pub proof fn semicolons_separate_declarations(input: ParseInput, index: int)
    requires
        is_plain_script(input),
        0 <= index,
        index + 2 < input.tree.child_count_of(0),
        !leads(top_kind(input, index)),
        top_kind(input, index) != GDScriptNodeKind::SemiColon,
        top_kind(input, index + 1) == GDScriptNodeKind::SemiColon,
        !leads(top_kind(input, index + 2)),
        top_kind(input, index + 2) != GDScriptNodeKind::SemiColon,
    ensures
        ({
            let lines = if newlines_behind(input, index + 1) >= 2 && defines(
                top_kind(input, index + 2),
            ) {
                input.blank_lines_around_definitions as int
            } else {
                0
            };
            in_a_row(
                source_docs(input),
                node_docs(input, input.tree.child_of(0, index)),
                hard_line() + blank_lines(lines),
                node_docs(input, input.tree.child_of(0, index + 2)),
            )
        }),
{
    reveal(source_from);
    reveal(declaration_gap_docs);
    reveal(plain_gap_docs);
    let lines = if newlines_behind(input, index + 1) >= 2 && defines(top_kind(input, index + 2)) {
        input.blank_lines_around_definitions as int
    } else {
        0
    };
    assert(is_state(input, 0, None, Seq::empty()));
    let front = lemma_behind(input, 0, None, Seq::empty(), index);
    let first = node_docs(input, input.tree.child_of(0, index));
    let semicolon = input.tree.child_of(0, index + 1);
    let next = input.tree.child_of(0, index + 2);
    let second = node_docs(input, next);
    let gap = plain_gap_docs(input, Some(semicolon), next);
    let rest = source_from(input, index + 3, Some(next), Seq::empty());
    assert(overlap(input, 0, index + 1) is Clear);
    assert(overlap(input, 0, index + 2) is Clear);
    assert(gap =~= blank_lines(lines));
    assert(source_from(input, index + 2, Some(semicolon), Seq::empty()) == gap + second + rest);
    assert(source_docs(input) =~= front + first + (hard_line() + gap) + second + rest);
    lemma_row(front, first, hard_line() + gap, second, rest);
}

/// True where a comment leads the definition below it.
pub open spec fn leads_definition(input: ParseInput, index: int) -> bool {
    &&& newlines_behind(input, index - 1) >= 1
    &&& newlines_behind(input, index) == 1
    &&& defines(top_kind(input, index + 1))
}

/// What stands in front of a comment between two declarations:
///
/// - the blank lines of the options, where it leads the definition below it;
/// - what the source has there, on the line of the first declaration or below it;
/// - otherwise an empty line, and one more behind a definition or where the source
///   has several of them, if the second declaration is on the line below the comment
///   and the first one does not name the class or its parent.
pub open spec fn gap_in_front_of_comment(input: ParseInput, index: int) -> Seq<Doc> {
    let first = top_kind(input, index - 1);
    let newlines = newlines_behind(input, index - 1);
    if leads_definition(input, index) {
        blank_lines(input.blank_lines_around_definitions as int)
    } else if newlines == 0 {
        space()
    } else if newlines == 1 {
        hard_line()
    } else if newlines_behind(input, index) == 1 && (defines(first) || (newlines >= 3 && first
        != GDScriptNodeKind::ClassName && first != GDScriptNodeKind::Extends)) {
        blank_lines(2)
    } else {
        hard_line() + blank_lines(1)
    }
}

/// What stands behind a comment between two declarations:
///
/// - a line break, where it leads the definition below it;
/// - the blank lines of the options around a definition, where the comment is on the
///   line of the first declaration or right below it, or where it stands alone in
///   front of a definition;
/// - otherwise a line break, with an empty line where there is one in the source.
pub open spec fn gap_behind_comment(input: ParseInput, index: int) -> Seq<Doc> {
    let first = top_kind(input, index - 1);
    let second = top_kind(input, index + 1);
    if leads_definition(input, index) {
        hard_line()
    } else if defines(second) || (defines(first) && newlines_behind(input, index - 1) <= 1) {
        blank_lines(input.blank_lines_around_definitions as int)
    } else if newlines_behind(input, index) == 1 {
        hard_line()
    } else {
        hard_line() + blank_lines(1)
    }
}

/// A comment between two declarations stays with the definition that it leads, and
/// apart from a definition that it does not belong to.
pub proof fn comments_stay_with_what_they_lead(input: ParseInput, index: int)
    requires
        is_plain_script(input),
        0 < index,
        index + 1 < input.tree.child_count_of(0),
        !leads(top_kind(input, index - 1)),
        top_kind(input, index - 1) != GDScriptNodeKind::SemiColon,
        !marks_region(top_kind(input, index - 1)),
        top_kind(input, index) == GDScriptNodeKind::Comment,
        !leads(top_kind(input, index + 1)),
        top_kind(input, index + 1) != GDScriptNodeKind::SemiColon,
        !marks_region(top_kind(input, index + 1)),
    ensures
        in_a_row(
            source_docs(input),
            node_docs(input, input.tree.child_of(0, index - 1)),
            gap_in_front_of_comment(input, index) + node_docs(input, input.tree.child_of(0, index))
                + gap_behind_comment(input, index),
            node_docs(input, input.tree.child_of(0, index + 1)),
        ),
{
    reveal(source_from);
    assert(is_state(input, 0, None, Seq::empty()));
    let front = lemma_behind(input, 0, None, Seq::empty(), index - 1);
    let previous = input.tree.child_of(0, index - 1);
    let comment = input.tree.child_of(0, index);
    let next = input.tree.child_of(0, index + 1);
    let pending = Seq::<Pending>::empty().push(
        Pending { node: comment, newlines: newlines_between(input, previous, comment) },
    );
    let first = node_docs(input, previous);
    let second = node_docs(input, next);
    let gap = declaration_gap_docs(input, pending, Some(previous), next);
    let rest = source_from(input, index + 2, Some(next), Seq::empty());
    assert(overlap(input, 0, index) is Clear);
    assert(overlap(input, 0, index + 1) is Clear);
    assert(source_from(input, index, Some(previous), Seq::empty()) == source_from(
        input,
        index + 1,
        Some(previous),
        pending,
    ));
    assert(source_from(input, index + 1, Some(previous), pending) == gap + second + rest);
    lemma_comment_gap(input, index);
    lemma_row(front, first, gap, second, rest);
    assert(source_docs(input) =~= front + first + gap + second + rest);
}

/// What stands between two declarations with a comment between them.
proof fn lemma_comment_gap(input: ParseInput, index: int)
    requires
        0 < index,
        index + 1 < input.tree.child_count_of(0),
        !marks_region(top_kind(input, index - 1)),
        top_kind(input, index) == GDScriptNodeKind::Comment,
        !marks_region(top_kind(input, index + 1)),
    ensures
        ({
            let previous = input.tree.child_of(0, index - 1);
            let comment = input.tree.child_of(0, index);
            let pending = Seq::<Pending>::empty().push(
                Pending { node: comment, newlines: newlines_between(input, previous, comment) },
            );
            declaration_gap_docs(
                input,
                pending,
                Some(previous),
                input.tree.child_of(0, index + 1),
            ) == gap_in_front_of_comment(input, index) + node_docs(input, comment)
                + gap_behind_comment(input, index)
        }),
{
    reveal(declaration_gap_docs);
    reveal_with_fuel(pending_docs, 2);
    reveal_with_fuel(leading_block_start, 2);
    reveal_with_fuel(attached_end, 2);
    let previous = input.tree.child_of(0, index - 1);
    let comment = input.tree.child_of(0, index);
    let next = input.tree.child_of(0, index + 1);
    let pending = Seq::<Pending>::empty().push(
        Pending { node: comment, newlines: newlines_between(input, previous, comment) },
    );
    let docs = node_docs(input, comment);
    let before = newlines_between(input, previous, comment);
    let leading = leading_start(input, pending, Some(previous), next);
    assert(pending.len() == 1 && pending[0].newlines == before && pending.last() == pending[0]);
    assert(before == newlines_behind(input, index - 1));
    assert(newlines_between(input, comment, next) == newlines_behind(input, index));
    assert(blank_lines(1) =~= blank_line());
    assert(blank_lines(2) =~= blank_line() + blank_line());
    assert(hard_and_blank_line() =~= hard_line() + blank_lines(1));
    assert(leading == if leads_definition(input, index) {
        0int
    } else {
        1int
    });
    assert(attached_end(pending, 0, leading, true) == if leading == 1 && before < 2 {
        1int
    } else {
        0int
    });
}

} // verus!
