//! What stands between the statements of a body.
use vstd::prelude::*;

use crate::document::{
    blank_line, blank_lines, group_concat, hard_and_blank_line, hard_line, indented, nothing, space,
    Doc,
};
use crate::formatter::bodies::{
    body_comma_docs, body_docs, body_from, body_gap_docs, inline_comment_after,
};
use crate::formatter::nodes::{child_docs, node_docs};
use crate::formatter::queries::{
    annotations_lead_definition, block_leads_definition, comment_leads_definition,
    first_child_of_kind, first_child_of_kind_is_the_first, first_of_comment_block,
    previous_block_follows_definition,
};
use crate::formatter::regions::overlap;
use crate::formatter::rows::{
    has_blank_line, has_line_break, in_a_row, is_blank, lemma_row, lemma_row_inside,
};
use crate::formatter::top_level::{defines, leads};
use crate::node_kind::GDScriptNodeKind;
use crate::parser::ParseInput;
use crate::renderer::Element;
use crate::syntax_tree::SyntaxTree;
use crate::text::newline_count;

verus! {

broadcast use group_concat;

/// The number of newlines between a child and the next one.
pub open spec fn newlines_after(input: ParseInput, node: int, index: int) -> int {
    newline_count(
        input.bytes(),
        input.tree.end_of(input.tree.child_of(node, index)),
        input.tree.start_of(input.tree.child_of(node, index + 1)),
    ) as int
}

/// True of the declarations that blank lines can set apart in a body.
pub open spec fn kind_is_member(kind: GDScriptNodeKind) -> bool {
    matches!(
        kind,
        GDScriptNodeKind::Function
            | GDScriptNodeKind::Constructor
            | GDScriptNodeKind::ClassDefinition
            | GDScriptNodeKind::Variable
            | GDScriptNodeKind::Const
            | GDScriptNodeKind::Enum
            | GDScriptNodeKind::Signal
    )
}

/// True of a child that stands on the line of the one before it.
pub open spec fn is_trailing_comment(input: ParseInput, node: int, index: int) -> bool {
    index > 0 && forall|offset: int|
        input.tree.end_of(input.tree.child_of(node, index - 1)) <= offset < input.tree.start_of(
            input.tree.child_of(node, index),
        ) ==> #[trigger] input.bytes()[offset] != 10u8
}

/// True of an annotation in a body that stays on a line of its own: a newline
/// follows it, and then something else than a declaration, or one that has a list
/// of annotations already.
pub open spec fn stands_on_own_line(input: ParseInput, node: int, index: int) -> bool {
    let next = input.tree.child_of(node, index + 1);
    &&& exists|offset: int|
        input.tree.end_of(input.tree.child_of(node, index)) <= offset < input.tree.start_of(next)
            && #[trigger] input.bytes()[offset] == 10u8
    &&& !kind_is_member(input.tree.kind_of(next)) || exists|part: int|
        #![trigger input.tree.child_of(next, part)]
        0 <= part < input.tree.child_count_of(next) && input.tree.child_kind_of(next, part)
            == GDScriptNodeKind::Annotations
}

/// True of comments from `start` to `end`, each on the line below the one before.
pub open spec fn are_comments(input: ParseInput, node: int, start: int, end: int) -> bool {
    &&& start <= end
    &&& forall|index: int|
        #![trigger input.tree.child_of(node, index)]
        start <= index <= end ==> input.tree.child_kind_of(node, index)
            == GDScriptNodeKind::Comment && (index < end ==> newlines_after(input, node, index)
            == 1)
}

/// True where comments from `start` on stand right above a definition.
pub open spec fn comments_lead(input: ParseInput, node: int, start: int) -> bool {
    exists|end: int|
        #![trigger are_comments(input, node, start, end)]
        are_comments(input, node, start, end) && end + 1 < input.tree.child_count_of(node)
            && newlines_after(input, node, end) == 1 && kind_is_member(
            input.tree.child_kind_of(node, end + 1),
        ) && defines(input.tree.child_kind_of(node, end + 1))
}

/// True where comments up to `end` stand right below a definition.
pub open spec fn comments_belong(input: ParseInput, node: int, end: int) -> bool {
    exists|start: int|
        #![trigger are_comments(input, node, start, end)]
        are_comments(input, node, start, end) && 0 < start && newlines_after(input, node, start - 1)
            == 1 && defines(input.tree.child_kind_of(node, start - 1))
}

/// True of annotations from `start` to `end`.
pub open spec fn are_annotations(tree: SyntaxTree, node: int, start: int, end: int) -> bool {
    &&& start <= end
    &&& forall|index: int|
        #![trigger tree.child_of(node, index)]
        start <= index <= end ==> tree.child_kind_of(node, index) == GDScriptNodeKind::Annotation
}

/// True where annotations from `start` on stand in front of a definition.
pub open spec fn annotations_lead(tree: SyntaxTree, node: int, start: int) -> bool {
    exists|end: int|
        #![trigger are_annotations(tree, node, start, end)]
        are_annotations(tree, node, start, end) && end + 1 < tree.child_count_of(node) && defines(
            tree.child_kind_of(node, end + 1),
        )
}

proof fn lemma_comments_lead(input: ParseInput, node: int, start: int) -> (end: int)
    requires
        comment_leads_definition(input, node, start),
        input.tree.child_kind_of(node, start) == GDScriptNodeKind::Comment,
    ensures
        are_comments(input, node, start, end),
        end + 1 < input.tree.child_count_of(node),
        newlines_after(input, node, end) == 1,
        kind_is_member(input.tree.child_kind_of(node, end + 1)),
        defines(input.tree.child_kind_of(node, end + 1)),
    decreases input.tree.child_count_of(node) - start,
{
    if input.tree.child_kind_of(node, start + 1) == GDScriptNodeKind::Comment {
        lemma_comments_lead(input, node, start + 1)
    } else {
        start
    }
}

proof fn lemma_led(input: ParseInput, node: int, start: int, end: int)
    requires
        are_comments(input, node, start, end),
        end + 1 < input.tree.child_count_of(node),
        newlines_after(input, node, end) == 1,
        kind_is_member(input.tree.child_kind_of(node, end + 1)),
        defines(input.tree.child_kind_of(node, end + 1)),
    ensures
        comment_leads_definition(input, node, start),
    decreases end - start,
{
    assert(input.tree.child_of(node, start) == input.tree.child_of(node, start));
    assert(input.tree.child_of(node, start + 1) == input.tree.child_of(node, start + 1));
    if start < end {
        lemma_led(input, node, start + 1, end);
    }
}

proof fn lemma_first_of_block(input: ParseInput, node: int, index: int)
    requires
        input.tree.child_kind_of(node, index) == GDScriptNodeKind::Comment,
    ensures
        are_comments(input, node, first_of_comment_block(input, node, index), index),
    decreases index,
{
    if index > 0 && input.tree.child_kind_of(node, index - 1) == GDScriptNodeKind::Comment
        && newlines_after(input, node, index - 1) == 1 {
        lemma_first_of_block(input, node, index - 1);
    }
}

proof fn lemma_block_starts(input: ParseInput, node: int, start: int, index: int)
    requires
        are_comments(input, node, start, index),
        0 < start,
        input.tree.child_kind_of(node, start - 1) != GDScriptNodeKind::Comment,
    ensures
        first_of_comment_block(input, node, index) == start,
    decreases index - start,
{
    assert(input.tree.child_of(node, index) == input.tree.child_of(node, index));
    assert(input.tree.child_of(node, index - 1) == input.tree.child_of(node, index - 1));
    if start < index {
        lemma_block_starts(input, node, start, index - 1);
    }
}

proof fn lemma_annotations_lead(tree: SyntaxTree, node: int, start: int) -> (end: int)
    requires
        tree.child_kind_of(node, start) == GDScriptNodeKind::Annotation,
        annotations_lead_definition(tree, node, start + 1),
    ensures
        are_annotations(tree, node, start, end),
        end + 1 < tree.child_count_of(node),
        defines(tree.child_kind_of(node, end + 1)),
    decreases tree.child_count_of(node) - start,
{
    if tree.child_kind_of(node, start + 1) == GDScriptNodeKind::Annotation {
        lemma_annotations_lead(tree, node, start + 1)
    } else {
        start
    }
}

proof fn lemma_annotated(tree: SyntaxTree, node: int, start: int, end: int)
    requires
        are_annotations(tree, node, start, end),
        end + 1 < tree.child_count_of(node),
        defines(tree.child_kind_of(node, end + 1)),
    ensures
        annotations_lead_definition(tree, node, start + 1),
    decreases end - start,
{
    assert(tree.child_of(node, start + 1) == tree.child_of(node, start + 1));
    if start < end {
        lemma_annotated(tree, node, start + 1, end);
    }
}

/// What leads a definition, and what belongs to one, is what stands next to it.
proof fn lemma_leading(input: ParseInput, node: int, index: int)
    requires
        0 <= index < input.tree.child_count_of(node),
    ensures
        input.tree.child_kind_of(node, index) == GDScriptNodeKind::Comment
            ==> block_leads_definition(input, node, index) == comments_lead(input, node, index),
        input.tree.child_kind_of(node, index) == GDScriptNodeKind::Comment
            ==> previous_block_follows_definition(input, node, index + 1) == comments_belong(
            input,
            node,
            index,
        ),
        input.tree.child_kind_of(node, index) == GDScriptNodeKind::Annotation
            ==> annotations_lead_definition(*input.tree, node, index + 1) == annotations_lead(
            *input.tree,
            node,
            index,
        ),
{
    let tree = *input.tree;
    let kind = input.tree.child_kind_of(node, index);
    if kind == GDScriptNodeKind::Comment {
        if comment_leads_definition(input, node, index) {
            let end = lemma_comments_lead(input, node, index);
            assert(are_comments(input, node, index, end));
        }
        if comments_lead(input, node, index) {
            let end = choose|end: int|
                #![trigger are_comments(input, node, index, end)]
                are_comments(input, node, index, end) && end + 1 < input.tree.child_count_of(node)
                    && newlines_after(input, node, end) == 1 && kind_is_member(
                    input.tree.child_kind_of(node, end + 1),
                ) && defines(input.tree.child_kind_of(node, end + 1));
            lemma_led(input, node, index, end);
        }
        lemma_first_of_block(input, node, index);
        if comments_belong(input, node, index) {
            let start = choose|start: int|
                #![trigger are_comments(input, node, start, index)]
                are_comments(input, node, start, index) && 0 < start && newlines_after(
                    input,
                    node,
                    start - 1,
                ) == 1 && defines(input.tree.child_kind_of(node, start - 1));
            lemma_block_starts(input, node, start, index);
        }
    }
    if kind == GDScriptNodeKind::Annotation {
        if annotations_lead_definition(tree, node, index + 1) {
            let end = lemma_annotations_lead(tree, node, index);
            assert(are_annotations(tree, node, index, end));
        }
        if annotations_lead(tree, node, index) {
            let end = choose|end: int|
                #![trigger are_annotations(tree, node, index, end)]
                are_annotations(tree, node, index, end) && end + 1 < tree.child_count_of(node)
                    && defines(tree.child_kind_of(node, end + 1));
            lemma_annotated(tree, node, index, end);
        }
    }
}

/// What may stand between a child of a body and the next one:
///
/// - spaces, line breaks and empty lines, and nothing else;
/// - a line break where there is one in the source, but for an annotation that
///   goes on the line of what it annotates;
/// - behind an annotation, a line break or a space;
/// - an empty line where there is one in the source, but for a comment on a line
///   of its own, which moves to the line above the statement that follows it;
/// - a line break between a comment and the statement on the next line;
/// - a space in front of a comment on the line of a statement;
/// - a space, a line break, or a line break and an empty line, as in the source,
///   between other statements;
/// - the blank lines of the options in front of a definition, and in a class also
///   behind it;
/// - the same in front of the comments and annotations that lead a definition, but
///   only a line break and no more empty lines than one in front of other comments.
pub open spec fn is_statement_gap(input: ParseInput, node: int, index: int, gap: Seq<Doc>) -> bool {
    let first = input.tree.child_kind_of(node, index);
    let second = input.tree.child_kind_of(node, index + 1);
    let newlines = newlines_after(input, node, index);
    &&& is_blank(gap)
    &&& newlines >= 1 && first != GDScriptNodeKind::Annotation ==> has_line_break(gap)
    &&& newlines >= 2 && !leads(first) ==> has_blank_line(gap)
    &&& first == GDScriptNodeKind::Comment && newlines >= 2 && (second == GDScriptNodeKind::Comment
        || is_trailing_comment(input, node, index)) ==> has_blank_line(gap)
    &&& first == GDScriptNodeKind::Comment && second != GDScriptNodeKind::Comment && newlines == 1
        ==> gap == hard_line()
    &&& second == GDScriptNodeKind::Comment && newlines == 0 && !leads(first) ==> gap == space()
    &&& !leads(first) && !leads(second) && !defines(first) && !defines(second) ==> gap
        == if newlines == 0 {
        space()
    } else if newlines == 1 {
        hard_line()
    } else {
        hard_and_blank_line()
    }
    &&& first == GDScriptNodeKind::Annotation ==> gap == if stands_on_own_line(
        input,
        node,
        index,
    ) {
        hard_line()
    } else {
        space()
    }
    &&& kind_is_member(first) && kind_is_member(second) && newlines >= 1 && (defines(second)
        || defines(first) && input.tree.kind_of(node) == GDScriptNodeKind::ClassBody) ==> gap
        == blank_lines(input.blank_lines_around_definitions as int)
    &&& kind_is_member(first) && second == GDScriptNodeKind::Comment && newlines >= 1 ==> gap
        == if comments_lead(input, node, index + 1) {
        blank_lines(input.blank_lines_around_definitions as int)
    } else if newlines == 1 {
        hard_line()
    } else {
        hard_and_blank_line()
    }
    &&& kind_is_member(first) && second == GDScriptNodeKind::Annotation && newlines >= 1 ==> gap
        == if annotations_lead(*input.tree, node, index + 1) || (defines(first)
        && input.tree.kind_of(node) == GDScriptNodeKind::ClassBody) {
        blank_lines(input.blank_lines_around_definitions as int)
    } else if newlines == 1 {
        hard_line()
    } else {
        hard_and_blank_line()
    }
    &&& first == GDScriptNodeKind::Comment && second == GDScriptNodeKind::Comment && newlines >= 1
        ==> gap == if comments_lead(input, node, index + 1) && comments_belong(input, node, index) {
        blank_lines(input.blank_lines_around_definitions as int)
    } else if newlines == 1 {
        hard_line()
    } else {
        hard_and_blank_line()
    }
    &&& first == GDScriptNodeKind::Comment && !leads(second) && newlines >= 2
        && is_trailing_comment(input, node, index) ==> gap == if defines(second) {
        blank_lines(input.blank_lines_around_definitions as int)
    } else {
        hard_and_blank_line()
    }
}

/// What stands between two children of a body is what may stand there.
proof fn lemma_gap(input: ParseInput, node: int, index: int, follows_inline_comment: bool)
    requires
        0 <= index,
        index + 1 < input.tree.child_count_of(node),
        input.blank_lines_around_definitions > 0,
        input.tree.child_kind_of(node, index) != GDScriptNodeKind::SemiColon,
        input.tree.child_kind_of(node, index) == GDScriptNodeKind::Comment && is_trailing_comment(
            input,
            node,
            index,
        ) ==> follows_inline_comment,
    ensures
        is_statement_gap(
            input,
            node,
            index,
            body_gap_docs(input, node, index + 1, follows_inline_comment),
        ),
{
    reveal(body_gap_docs);
    lemma_leading(input, node, index);
    lemma_leading(input, node, index + 1);
    let gap = body_gap_docs(input, node, index + 1, follows_inline_comment);
    let option = input.blank_lines_around_definitions as int;
    assert(hard_line()[0] == Doc::Leaf(Element::HardLine));
    assert(hard_and_blank_line()[0] == Doc::Leaf(Element::HardLine));
    assert(hard_and_blank_line()[1] == Doc::Leaf(Element::BlankLine));
    assert(blank_lines(option)[0] == Doc::Leaf(Element::BlankLine));
    assert(gap == space() || gap == hard_line() || gap == hard_and_blank_line() || gap
        == blank_lines(option));
    assert(index + 1 - 1 == index);
    let next = input.tree.child_of(node, index + 1);
    let count = input.tree.child_count_of(next);
    let list = GDScriptNodeKind::Annotations;
    first_child_of_kind_is_the_first(*input.tree, next, 0, count, list);
    match first_child_of_kind(*input.tree, next, 0, count, list) {
        Some(part) => {
            assert(input.tree.child_of(next, part) == input.tree.child_of(next, part));
        },
        None => {},
    }
}

/// True where a child of a body and the next one follow each other in documents,
/// with what may stand between them.
pub open spec fn statements_follow(
    input: ParseInput,
    node: int,
    docs: Seq<Doc>,
    index: int,
) -> bool {
    exists|gap: Seq<Doc>|
        is_statement_gap(input, node, index, gap) && #[trigger] in_a_row(
            docs,
            child_docs(input, node, index),
            gap,
            child_docs(input, node, index + 1),
        )
}

/// More documents around those in which children follow each other.
proof fn lemma_inside(
    input: ParseInput,
    node: int,
    before: Seq<Doc>,
    docs: Seq<Doc>,
    after: Seq<Doc>,
    index: int,
)
    requires
        statements_follow(input, node, docs, index),
    ensures
        statements_follow(input, node, before + docs + after, index),
{
    let first = child_docs(input, node, index);
    let second = child_docs(input, node, index + 1);
    let gap = choose|gap: Seq<Doc>|
        is_statement_gap(input, node, index, gap) && #[trigger] in_a_row(docs, first, gap, second);
    lemma_row_inside(before, docs, after, first, gap, second);
}

/// From a child on, the children of a body follow each other.
proof fn lemma_body_row(
    input: ParseInput,
    node: int,
    from: int,
    follows_inline_comment: bool,
    index: int,
)
    requires
        input.blank_lines_around_definitions > 0,
        input.disabled_regions@.len() == 0,
        0 <= from <= index + 1,
        0 <= index,
        index + 1 < input.tree.child_count_of(node),
        input.tree.child_kind_of(node, index) != GDScriptNodeKind::SemiColon,
        input.tree.child_kind_of(node, index + 1) != GDScriptNodeKind::SemiColon,
        from == index + 1 && input.tree.child_kind_of(node, index) == GDScriptNodeKind::Comment
            && is_trailing_comment(input, node, index) ==> follows_inline_comment,
    ensures
        statements_follow(
            input,
            node,
            (if index == from - 1 {
                child_docs(input, node, index)
            } else {
                nothing()
            }) + body_from(input, node, from, follows_inline_comment, false),
            index,
        ),
    decreases input.tree.children_left(node, from),
{
    let docs = body_from(input, node, from, follows_inline_comment, false);
    let child = child_docs(input, node, from);
    let inline = inline_comment_after(input, node, from, follows_inline_comment);
    let gap = if from > 0 {
        body_gap_docs(input, node, from, follows_inline_comment)
    } else {
        nothing()
    };
    assert(overlap(input, node, from) is Clear);
    assert(body_comma_docs(input, node, from, false) == nothing());
    if from == index + 1 {
        let first = child_docs(input, node, index);
        let rest = body_from(input, node, from + 1, inline, false);
        lemma_gap(input, node, index, follows_inline_comment);
        assert(docs == gap + child + rest);
        assert(first + docs =~= nothing() + first + gap + child + rest);
        lemma_row(nothing(), first, gap, child, rest);
    } else if input.tree.child_kind_of(node, from) == GDScriptNodeKind::SemiColon {
        let rest = body_from(input, node, from + 1, follows_inline_comment, false);
        lemma_body_row(input, node, from + 1, follows_inline_comment, index);
        assert(docs == hard_line() + rest);
        assert(nothing() + rest =~= rest);
        lemma_inside(input, node, hard_line(), rest, nothing(), index);
        assert(nothing() + docs =~= hard_line() + rest + nothing());
    } else {
        let rest = body_from(input, node, from + 1, inline, false);
        lemma_body_row(input, node, from + 1, inline, index);
        assert(docs == gap + child + rest);
        if from == index {
            lemma_inside(input, node, gap, child + rest, nothing(), index);
            assert(nothing() + docs =~= gap + (child + rest) + nothing());
        } else {
            assert(nothing() + rest =~= rest);
            lemma_inside(input, node, gap + child, rest, nothing(), index);
            assert(nothing() + docs =~= gap + child + rest + nothing());
        }
    }
}

/// The children of a body follow each other in the order of the source, one
/// level further to the right than what the body belongs to, and what stands
/// between them is what may stand there: statements stay on lines of their own,
/// nothing ends up in a comment, and definitions are set apart.
pub proof fn statements_follow_each_other(input: ParseInput, node: int, index: int)
    requires
        matches!(
            input.tree.kind_of(node),
            GDScriptNodeKind::Body | GDScriptNodeKind::ClassBody | GDScriptNodeKind::MatchBody
        ),
        input.blank_lines_around_definitions > 0,
        input.disabled_regions@.len() == 0,
        0 <= index,
        index + 1 < input.tree.child_count_of(node),
        input.tree.child_kind_of(node, index) != GDScriptNodeKind::SemiColon,
        input.tree.child_kind_of(node, index + 1) != GDScriptNodeKind::SemiColon,
    ensures
        exists|inner: Seq<Doc>|
            node_docs(input, node) == #[trigger] indented(1, inner) && statements_follow(
                input,
                node,
                inner,
                index,
            ),
{
    let inner = body_from(input, node, 0, false, false);
    lemma_body_row(input, node, 0, false, index);
    assert(nothing() + inner =~= inner);
    assert(node_docs(input, node) == body_docs(input, node, false));
}

/// From a child on, a line break stands for a semicolon.
proof fn lemma_semicolon_row(
    input: ParseInput,
    node: int,
    from: int,
    follows_inline_comment: bool,
    index: int,
) -> (gap: Seq<Doc>)
    requires
        input.disabled_regions@.len() == 0,
        0 <= from <= index,
        index + 2 < input.tree.child_count_of(node),
        input.tree.child_kind_of(node, index) != GDScriptNodeKind::SemiColon,
        input.tree.child_kind_of(node, index + 1) == GDScriptNodeKind::SemiColon,
        input.tree.child_kind_of(node, index + 2) != GDScriptNodeKind::SemiColon,
    ensures
        in_a_row(
            body_from(input, node, from, follows_inline_comment, false),
            child_docs(input, node, index),
            gap,
            child_docs(input, node, index + 2),
        ),
        gap == (if newlines_after(input, node, index + 1) >= 2 {
            hard_line() + (blank_line() + blank_line())
        } else {
            hard_line()
        }),
    decreases input.tree.children_left(node, from),
{
    let docs = body_from(input, node, from, follows_inline_comment, false);
    let child = child_docs(input, node, from);
    let inline = inline_comment_after(input, node, from, follows_inline_comment);
    let front = if from > 0 {
        body_gap_docs(input, node, from, follows_inline_comment)
    } else {
        nothing()
    };
    assert(overlap(input, node, from) is Clear);
    if from == index {
        reveal(body_gap_docs);
        let second = child_docs(input, node, index + 2);
        let behind = body_gap_docs(input, node, index + 2, inline);
        let next = inline_comment_after(input, node, index + 2, inline);
        let rest = body_from(input, node, index + 3, next, false);
        let gap = hard_line() + behind;
        assert(overlap(input, node, index + 1) is Clear);
        assert(overlap(input, node, index + 2) is Clear);
        assert(body_from(input, node, index + 2, inline, false) == behind + second + rest);
        assert(body_from(input, node, index + 1, inline, false) == hard_line() + (behind + second
            + rest));
        assert(docs =~= front + child + gap + second + rest);
        lemma_row(front, child, gap, second, rest);
        gap
    } else if input.tree.child_kind_of(node, from) == GDScriptNodeKind::SemiColon {
        let gap = lemma_semicolon_row(input, node, from + 1, follows_inline_comment, index);
        let rest = body_from(input, node, from + 1, follows_inline_comment, false);
        lemma_row_inside(
            hard_line(),
            rest,
            nothing(),
            child_docs(input, node, index),
            gap,
            child_docs(input, node, index + 2),
        );
        assert(docs =~= hard_line() + rest + nothing());
        gap
    } else {
        let gap = lemma_semicolon_row(input, node, from + 1, inline, index);
        let rest = body_from(input, node, from + 1, inline, false);
        lemma_row_inside(
            front + child,
            rest,
            nothing(),
            child_docs(input, node, index),
            gap,
            child_docs(input, node, index + 2),
        );
        assert(docs =~= front + child + rest + nothing());
        gap
    }
}

/// A semicolon between two statements of a body becomes a line break, and the
/// semicolon is gone. Two empty lines follow where there is one in the source.
pub proof fn semicolons_become_line_breaks(input: ParseInput, node: int, index: int)
    requires
        matches!(
            input.tree.kind_of(node),
            GDScriptNodeKind::Body | GDScriptNodeKind::ClassBody | GDScriptNodeKind::MatchBody
        ),
        input.disabled_regions@.len() == 0,
        0 <= index,
        index + 2 < input.tree.child_count_of(node),
        input.tree.child_kind_of(node, index) != GDScriptNodeKind::SemiColon,
        input.tree.child_kind_of(node, index + 1) == GDScriptNodeKind::SemiColon,
        input.tree.child_kind_of(node, index + 2) != GDScriptNodeKind::SemiColon,
    ensures
        exists|inner: Seq<Doc>, gap: Seq<Doc>|
            node_docs(input, node) == indented(1, inner) && gap == (if newlines_after(
                input,
                node,
                index + 1,
            ) >= 2 {
                hard_line() + (blank_line() + blank_line())
            } else {
                hard_line()
            }) && #[trigger] in_a_row(
                inner,
                child_docs(input, node, index),
                gap,
                child_docs(input, node, index + 2),
            ),
{
    let gap = lemma_semicolon_row(input, node, 0, false, index);
    assert(node_docs(input, node) == body_docs(input, node, false));
}

} // verus!
