//! What stands between the parts of a node that is laid out part by part.
use vstd::prelude::*;

use crate::document::{
    group_concat, grouped, hard_and_blank_line, hard_line, indented, nothing, source_text, space,
    Doc,
};
use crate::formatter::annotations::{all_go_on_the_line, lists_of_exports_go_on_the_line};
use crate::formatter::chains::flat_arguments_docs;
use crate::formatter::nodes::{
    child_docs, children_docs, children_from, continued_docs, function_docs, node_docs, run_docs,
    separated_docs, separator_before, setget_docs,
};
use crate::formatter::queries::{first_child_of_kind, first_child_of_kind_is_the_first};
use crate::formatter::regions::{overlap, overlaps_a_region};
use crate::formatter::rows::{in_a_row, lemma_row, lemma_row_inside};
use crate::formatter::separators::separator_docs;
use crate::node_kind::GDScriptNodeKind;
use crate::parser::ParseInput;
use crate::renderer::Element;

verus! {

broadcast use group_concat;

/// True of brackets.
pub open spec fn is_bracket_kind(kind: GDScriptNodeKind) -> bool {
    kind == GDScriptNodeKind::TokenParen || kind == GDScriptNodeKind::TokenBracket || kind
        == GDScriptNodeKind::TokenBrace
}

/// True of the clauses and blocks that start on a line of their own.
pub open spec fn starts_line(kind: GDScriptNodeKind) -> bool {
    matches!(
        kind,
        GDScriptNodeKind::ElifStatement
            | GDScriptNodeKind::ElseStatement
            | GDScriptNodeKind::Body
            | GDScriptNodeKind::ClassBody
            | GDScriptNodeKind::MatchBody
            | GDScriptNodeKind::SetBody
            | GDScriptNodeKind::GetBody
    )
}

/// True of two parts next to each other that punctuation joins: one of them is a
/// bracket or a dot, or the second one is a comma, a colon, or starts with a
/// bracket or colon, or the first one is a sign or a marker in front of the
/// second.
pub open spec fn is_joined_by_punctuation(
    input: ParseInput,
    parent: GDScriptNodeKind,
    previous: int,
    current: int,
) -> bool {
    let first = input.tree.kind_of(previous);
    let second = input.tree.kind_of(current);
    ||| is_bracket_kind(first)
    ||| is_bracket_kind(second)
    ||| first == GDScriptNodeKind::TokenDot
    ||| second == GDScriptNodeKind::TokenDot
    ||| second == GDScriptNodeKind::TokenComma
    ||| second == GDScriptNodeKind::TokenColon
    ||| second == GDScriptNodeKind::SubscriptArguments
    ||| second == GDScriptNodeKind::SetGet
    ||| (second == GDScriptNodeKind::Parameters || second == GDScriptNodeKind::Arguments) && (first
        == GDScriptNodeKind::Identifier || first == GDScriptNodeKind::NameInit || first
        == GDScriptNodeKind::NameSet || first == GDScriptNodeKind::NameGet)
    ||| second == GDScriptNodeKind::Parameters && first == GDScriptNodeKind::KeywordFunc && parent
        == GDScriptNodeKind::Lambda
    ||| parent == GDScriptNodeKind::UnaryOperator && (first == GDScriptNodeKind::Operator
        || input.tree.name_of(previous) == "~"@ || input.tree.name_of(previous) == "!"@)
    ||| input.tree.name_of(previous) == "@"@
    ||| first == GDScriptNodeKind::LineContinuation
}

/// True of a list of annotations that stays on the line of what it annotates: for
/// a variable, where all of them go on its line, and for others, where none has
/// arguments, which are what stands behind the sign and the name.
pub open spec fn stays_on_line(
    input: ParseInput,
    parent: GDScriptNodeKind,
    annotations: int,
) -> bool {
    if parent == GDScriptNodeKind::Variable || parent == GDScriptNodeKind::ExportVariable || parent
        == GDScriptNodeKind::OnReadyVariable {
        all_go_on_the_line(input, annotations)
    } else {
        forall|index: int|
            #![trigger input.tree.child_of(annotations, index)]
            0 <= index < input.tree.child_count_of(annotations) ==> input.tree.child_count_of(
                input.tree.child_of(annotations, index),
            ) <= 2
    }
}

/// What may stand between two parts of a node next to each other:
///
/// - in front of a comment, a space if it is on the same line of the source, and
///   otherwise a line break, with an empty line if there is one in the source;
/// - a line break behind a comment, and in front of a clause or block, with an empty
///   line in front of a clause if there is one in the source;
/// - nothing where punctuation joins the two;
/// - behind a list of annotations, a space where it stays on the line, and a line
///   break otherwise;
/// - and a space between any other two, so that words never run together.
pub open spec fn is_part_gap(
    input: ParseInput,
    parent: GDScriptNodeKind,
    previous: int,
    current: int,
    gap: Seq<Doc>,
) -> bool {
    let first = input.tree.kind_of(previous);
    let second = input.tree.kind_of(current);
    if second == GDScriptNodeKind::Comment {
        gap == if input.tree.start_row_of(current) == input.tree.end_row_of(previous) {
            space()
        } else if input.tree.start_row_of(current) > input.tree.end_row_of(previous) + 1 {
            hard_and_blank_line()
        } else {
            hard_line()
        }
    } else if starts_line(second) {
        gap == if (second == GDScriptNodeKind::ElifStatement || second
            == GDScriptNodeKind::ElseStatement) && input.tree.start_row_of(current)
            > input.tree.end_row_of(previous) + 1 {
            hard_and_blank_line()
        } else {
            hard_line()
        }
    } else if first == GDScriptNodeKind::Comment && second != GDScriptNodeKind::SetGet {
        gap == hard_line()
    } else if is_joined_by_punctuation(input, parent, previous, current) {
        gap == nothing()
    } else if first == GDScriptNodeKind::Annotations {
        gap == if stays_on_line(input, parent, previous) {
            space()
        } else {
            hard_line()
        }
    } else {
        gap == space()
    }
}

/// Separators are what may stand between two parts. Only the parts of an inferred
/// type, a colon and an equals sign, are joined whatever they are.
pub proof fn separators_keep_words_apart(
    input: ParseInput,
    parent: GDScriptNodeKind,
    previous: int,
    current: int,
)
    ensures
        parent != GDScriptNodeKind::InferredType ==> is_part_gap(
            input,
            parent,
            previous,
            current,
            separator_docs(input, parent, previous, current),
        ),
        parent == GDScriptNodeKind::InferredType ==> separator_docs(
            input,
            parent,
            previous,
            current,
        ) == nothing(),
{
    reveal(separator_docs);
    lists_of_exports_go_on_the_line(input, previous);
    assert(hard_line()[0] == Doc::Leaf(Element::HardLine));
    assert(hard_and_blank_line()[0] == Doc::Leaf(Element::HardLine));
}

/// True where a child and the next one follow each other in documents, with what
/// may stand between two parts.
pub open spec fn parts_follow(
    input: ParseInput,
    node: int,
    parent: GDScriptNodeKind,
    docs: Seq<Doc>,
    index: int,
) -> bool {
    exists|gap: Seq<Doc>|
        is_part_gap(
            input,
            parent,
            input.tree.child_of(node, index),
            input.tree.child_of(node, index + 1),
            gap,
        ) && #[trigger] in_a_row(
            docs,
            child_docs(input, node, index),
            gap,
            child_docs(input, node, index + 1),
        )
}

/// More documents around those in which parts follow each other.
proof fn lemma_inside(
    input: ParseInput,
    node: int,
    parent: GDScriptNodeKind,
    before: Seq<Doc>,
    docs: Seq<Doc>,
    after: Seq<Doc>,
    index: int,
)
    requires
        parts_follow(input, node, parent, docs, index),
    ensures
        parts_follow(input, node, parent, before + docs + after, index),
{
    let first = child_docs(input, node, index);
    let second = child_docs(input, node, index + 1);
    let gap = choose|gap: Seq<Doc>|
        is_part_gap(
            input,
            parent,
            input.tree.child_of(node, index),
            input.tree.child_of(node, index + 1),
            gap,
        ) && #[trigger] in_a_row(docs, first, gap, second);
    lemma_row_inside(before, docs, after, first, gap, second);
}

/// True of a child that is no backslash and stands behind none.
pub open spec fn is_plain_part(input: ParseInput, node: int, index: int) -> bool {
    &&& input.tree.child_kind_of(node, index) != GDScriptNodeKind::LineContinuation
    &&& index > 0 ==> input.tree.child_kind_of(node, index - 1)
        != GDScriptNodeKind::LineContinuation
}

pub proof fn lemma_children_row(input: ParseInput, node: int, from: int, index: int)
    requires
        input.disabled_regions@.len() == 0,
        input.tree.kind_of(node) != GDScriptNodeKind::InferredType,
        0 <= from <= index,
        index + 1 < input.tree.child_count_of(node),
        is_plain_part(input, node, index),
        is_plain_part(input, node, index + 1),
    ensures
        parts_follow(
            input,
            node,
            input.tree.kind_of(node),
            children_from(input, node, from),
            index,
        ),
    decreases input.tree.children_left(node, from),
{
    let kind = input.tree.kind_of(node);
    let docs = children_from(input, node, from);
    let front = separator_before(input, node, from) + continued_docs(input, node, from);
    let rest = children_from(input, node, from + 1);
    assert(overlap(input, node, from) is Clear);
    assert(docs == front + rest);
    if from == index {
        let gap = separator_before(input, node, index + 1);
        let first = child_docs(input, node, index);
        let second = child_docs(input, node, index + 1);
        let behind = children_from(input, node, index + 2);
        assert(overlap(input, node, index + 1) is Clear);
        separators_keep_words_apart(
            input,
            kind,
            input.tree.child_of(node, index),
            input.tree.child_of(node, index + 1),
        );
        assert(continued_docs(input, node, index) == first);
        assert(continued_docs(input, node, index + 1) == second);
        assert(rest == gap + second + behind);
        assert(docs =~= separator_before(input, node, from) + first + gap + second + behind);
        lemma_row(separator_before(input, node, from), first, gap, second, behind);
    } else {
        lemma_children_row(input, node, from + 1, index);
        lemma_inside(input, node, kind, front, rest, nothing(), index);
        assert(docs =~= front + rest + nothing());
    }
}

/// True of the kinds that are laid out part by part.
pub open spec fn kind_is_plain(kind: GDScriptNodeKind) -> bool {
    !matches!(
        kind,
        GDScriptNodeKind::String
            | GDScriptNodeKind::StringName
            | GDScriptNodeKind::NodePath
            | GDScriptNodeKind::GetNode
            | GDScriptNodeKind::RegionStart
            | GDScriptNodeKind::RegionEnd
            | GDScriptNodeKind::Error
            | GDScriptNodeKind::Array
            | GDScriptNodeKind::Dictionary
            | GDScriptNodeKind::EnumeratorList
            | GDScriptNodeKind::Parameters
            | GDScriptNodeKind::Arguments
            | GDScriptNodeKind::SubscriptArguments
            | GDScriptNodeKind::Body
            | GDScriptNodeKind::ClassBody
            | GDScriptNodeKind::MatchBody
            | GDScriptNodeKind::Lambda
            | GDScriptNodeKind::Function
            | GDScriptNodeKind::SetGet
            | GDScriptNodeKind::ParenthesizedExpression
            | GDScriptNodeKind::BinaryOperator
            | GDScriptNodeKind::Condition
            | GDScriptNodeKind::Attribute
            | GDScriptNodeKind::InferredType
    )
}

/// A node of most kinds is laid out part by part: its children follow each other,
/// with what may stand between them.
pub proof fn parts_follow_each_other(input: ParseInput, node: int, index: int)
    requires
        input.disabled_regions@.len() == 0,
        kind_is_plain(input.tree.kind_of(node)),
        0 <= index,
        index + 1 < input.tree.child_count_of(node),
        is_plain_part(input, node, index),
        is_plain_part(input, node, index + 1),
    ensures
        parts_follow(input, node, input.tree.kind_of(node), node_docs(input, node), index),
{
    lemma_children_row(input, node, 0, index);
    assert(children_docs(input, node) == children_from(input, node, 0));
}

proof fn lemma_separated_row(
    input: ParseInput,
    node: int,
    parent: GDScriptNodeKind,
    from: int,
    to: int,
    index: int,
)
    requires
        parent != GDScriptNodeKind::InferredType,
        0 < from <= index + 1 < to,
    ensures
        parts_follow(
            input,
            node,
            parent,
            (if from == index + 1 {
                child_docs(input, node, index)
            } else {
                nothing()
            }) + separated_docs(input, node, parent, from, to),
            index,
        ),
    decreases to - from,
{
    let gap = separator_docs(
        input,
        parent,
        input.tree.child_of(node, from - 1),
        input.tree.child_of(node, from),
    );
    let child = child_docs(input, node, from);
    let rest = separated_docs(input, node, parent, from + 1, to);
    let docs = separated_docs(input, node, parent, from, to);
    assert(docs == gap + child + rest);
    if from == index + 1 {
        let first = child_docs(input, node, index);
        separators_keep_words_apart(
            input,
            parent,
            input.tree.child_of(node, index),
            input.tree.child_of(node, index + 1),
        );
        assert(first + docs =~= nothing() + first + gap + child + rest);
        lemma_row(nothing(), first, gap, child, rest);
    } else {
        lemma_separated_row(input, node, parent, from + 1, to, index);
        if from == index {
            lemma_inside(input, node, parent, gap, child + rest, nothing(), index);
            assert(nothing() + docs =~= gap + (child + rest) + nothing());
        } else {
            assert(nothing() + rest =~= rest);
            lemma_inside(input, node, parent, gap + child, rest, nothing(), index);
            assert(nothing() + docs =~= gap + child + rest + nothing());
        }
    }
}

proof fn lemma_run_row(
    input: ParseInput,
    node: int,
    parent: GDScriptNodeKind,
    from: int,
    to: int,
    index: int,
)
    requires
        parent != GDScriptNodeKind::InferredType,
        0 <= from <= index,
        index + 1 < to,
    ensures
        parts_follow(input, node, parent, run_docs(input, node, parent, from, to), index),
{
    let child = child_docs(input, node, from);
    let rest = separated_docs(input, node, parent, from + 1, to);
    lemma_separated_row(input, node, parent, from + 1, to, index);
    if from == index {
        assert(run_docs(input, node, parent, from, to) == child + rest);
    } else {
        assert(nothing() + rest =~= rest);
        lemma_inside(input, node, parent, child, rest, nothing(), index);
        assert(run_docs(input, node, parent, from, to) =~= child + rest + nothing());
    }
}

/// A function is a header that breaks as a whole, and, behind a line break, its
/// body. The parts of the header follow each other, with what may stand between
/// them.
pub proof fn functions_have_their_body_below(input: ParseInput, node: int, body: int, index: int)
    requires
        input.disabled_regions@.len() == 0,
        input.tree.kind_of(node) == GDScriptNodeKind::Function,
        0 < body < input.tree.child_count_of(node),
        input.tree.child_kind_of(node, body) == GDScriptNodeKind::Body,
        forall|before: int|
            0 <= before < body ==> #[trigger] input.tree.child_kind_of(node, before)
                != GDScriptNodeKind::Body,
        0 <= index,
        index + 1 < body || index == 0,
    ensures
        exists|header: Seq<Doc>|
            node_docs(input, node) == #[trigger] grouped(header) + hard_line() + child_docs(
                input,
                node,
                body,
            ) && (index + 1 < body ==> parts_follow(
                input,
                node,
                GDScriptNodeKind::Function,
                header,
                index,
            )),
{
    let function = GDScriptNodeKind::Function;
    let count = input.tree.child_count_of(node);
    let header = run_docs(input, node, function, 0, body);
    first_child_of_kind_is_the_first(*input.tree, node, 0, count, GDScriptNodeKind::Body);
    let found = first_child_of_kind(*input.tree, node, 0, count, GDScriptNodeKind::Body);
    assert(input.tree.child_of(node, body) == input.tree.child_of(node, body));
    assert(found == Some(body)) by {
        let first = found->0;
        assert(input.tree.child_kind_of(node, first) == GDScriptNodeKind::Body);
        if first < body {
            assert(false);
        }
    }
    assert(!overlaps_a_region(input, node));
    reveal(separator_docs);
    assert(function_docs(input, node) == grouped(header) + hard_line() + child_docs(
        input,
        node,
        body,
    ));
    if index + 1 < body {
        lemma_run_row(input, node, function, 0, body, index);
    }
}

/// A function without a body is its header.
pub proof fn functions_without_a_body_are_headers(input: ParseInput, node: int, index: int)
    requires
        input.disabled_regions@.len() == 0,
        input.tree.kind_of(node) == GDScriptNodeKind::Function,
        forall|child: int|
            0 <= child < input.tree.child_count_of(node) ==> #[trigger] input.tree.child_kind_of(
                node,
                child,
            ) != GDScriptNodeKind::Body,
        0 <= index,
        index + 1 < input.tree.child_count_of(node),
    ensures
        exists|header: Seq<Doc>|
            node_docs(input, node) == #[trigger] grouped(header) && parts_follow(
                input,
                node,
                GDScriptNodeKind::Function,
                header,
                index,
            ),
{
    let function = GDScriptNodeKind::Function;
    let count = input.tree.child_count_of(node);
    let found = first_child_of_kind(*input.tree, node, 0, count, GDScriptNodeKind::Body);
    first_child_of_kind_is_the_first(*input.tree, node, 0, count, GDScriptNodeKind::Body);
    assert(found is None) by {
        if found is Some {
            assert(input.tree.child_kind_of(node, found->0) == GDScriptNodeKind::Body);
        }
    }
    assert(!overlaps_a_region(input, node));
    lemma_run_row(input, node, function, 0, count, index);
    assert(function_docs(input, node) == grouped(run_docs(input, node, function, 0, count)));
}

/// The accessors of a property stand below its first part, one level further to
/// the right.
pub proof fn accessors_stand_below(input: ParseInput, node: int, index: int)
    requires
        input.tree.kind_of(node) == GDScriptNodeKind::SetGet,
        input.tree.child_count_of(node) > 1,
        0 < index,
        index + 1 < input.tree.child_count_of(node) || index == 1,
    ensures
        exists|accessors: Seq<Doc>|
            node_docs(input, node) == child_docs(input, node, 0) + hard_line()
                + #[trigger] indented(1, accessors) && (index + 1 < input.tree.child_count_of(node)
                ==> parts_follow(input, node, GDScriptNodeKind::SetGet, accessors, index)),
{
    let kind = GDScriptNodeKind::SetGet;
    let count = input.tree.child_count_of(node);
    let accessors = run_docs(input, node, kind, 1, count);
    if index + 1 < count {
        lemma_run_row(input, node, kind, 1, count, index);
    }
    assert(node_docs(input, node) == setget_docs(input, node));
    assert(setget_docs(input, node) == child_docs(input, node, 0) + hard_line() + indented(
        1,
        accessors,
    ));
}

/// The arguments of a call in a chain that stay on one line follow each other with
/// what may stand between them.
pub proof fn arguments_on_a_line_follow_each_other(input: ParseInput, node: int, index: int)
    requires
        input.tree.kind_of(node) == GDScriptNodeKind::Arguments,
        0 <= index,
        index + 2 < input.tree.child_count_of(node),
        index + 3 < input.tree.child_count_of(node) || input.tree.child_kind_of(node, index + 1)
            != GDScriptNodeKind::TokenComma,
    ensures
        parts_follow(
            input,
            node,
            GDScriptNodeKind::Arguments,
            flat_arguments_docs(input, node),
            index,
        ),
{
    let count = input.tree.child_count_of(node);
    let kind = GDScriptNodeKind::Arguments;
    let end = if input.tree.child_kind_of(node, count - 2) == GDScriptNodeKind::TokenComma {
        count - 2
    } else {
        count - 1
    };
    let closing = separator_docs(
        input,
        kind,
        input.tree.child_of(node, end - 1),
        input.tree.child_of(node, count - 1),
    ) + child_docs(input, node, count - 1);
    let run = run_docs(input, node, kind, 0, end);
    lemma_run_row(input, node, kind, 0, end, index);
    lemma_inside(input, node, kind, nothing(), run, closing, index);
    assert(flat_arguments_docs(input, node) =~= nothing() + run + closing);
}

/// The parenthesis that closes such arguments stands behind the last of them, and a
/// comma in front of it is left out.
pub proof fn arguments_on_a_line_end_without_a_comma(input: ParseInput, node: int)
    requires
        input.tree.kind_of(node) == GDScriptNodeKind::Arguments,
        input.tree.child_count_of(node) >= 3,
        input.tree.child_kind_of(node, input.tree.child_count_of(node) - 1)
            == GDScriptNodeKind::TokenParen,
        input.tree.child_kind_of(node, input.tree.child_count_of(node) - 2)
            != GDScriptNodeKind::Comment,
        input.tree.child_kind_of(node, input.tree.child_count_of(node) - 3)
            != GDScriptNodeKind::Comment,
    ensures
        ({
            let count = input.tree.child_count_of(node);
            let last = if input.tree.child_kind_of(node, count - 2)
                == GDScriptNodeKind::TokenComma {
                count - 3
            } else {
                count - 2
            };
            in_a_row(
                flat_arguments_docs(input, node),
                child_docs(input, node, last),
                nothing(),
                child_docs(input, node, count - 1),
            )
        }),
{
    let count = input.tree.child_count_of(node);
    let kind = GDScriptNodeKind::Arguments;
    let last = if input.tree.child_kind_of(node, count - 2) == GDScriptNodeKind::TokenComma {
        count - 3
    } else {
        count - 2
    };
    let first = input.tree.child_of(node, last);
    let second = input.tree.child_of(node, count - 1);
    let end = child_docs(input, node, count - 1);
    let closing = separator_docs(input, kind, first, second);
    separators_keep_words_apart(input, kind, first, second);
    assert(closing == nothing());
    let before = lemma_run_ends(input, node, kind, 0, last);
    lemma_row(before, child_docs(input, node, last), nothing(), end, nothing());
    assert(flat_arguments_docs(input, node) =~= before + child_docs(input, node, last)
        + nothing() + end + nothing());
}

/// A run of children ends with the last of them.
proof fn lemma_run_ends(
    input: ParseInput,
    node: int,
    parent: GDScriptNodeKind,
    from: int,
    last: int,
) -> (before: Seq<Doc>)
    requires
        0 <= from <= last,
    ensures
        run_docs(input, node, parent, from, last + 1) == before + child_docs(input, node, last),
    decreases last - from,
{
    if from == last {
        assert(separated_docs(input, node, parent, from + 1, last + 1) == nothing());
        assert(run_docs(input, node, parent, from, last + 1) =~= nothing() + child_docs(
            input,
            node,
            last,
        ));
        nothing()
    } else {
        let rest = lemma_run_ends(input, node, parent, from + 1, last);
        let separator = separator_docs(
            input,
            parent,
            input.tree.child_of(node, from),
            input.tree.child_of(node, from + 1),
        );
        let before = child_docs(input, node, from) + separator + rest;
        assert(separated_docs(input, node, parent, from + 1, last + 1) =~= separator + run_docs(
            input,
            node,
            parent,
            from + 1,
            last + 1,
        ));
        assert(run_docs(input, node, parent, from, last + 1) =~= before + child_docs(
            input,
            node,
            last,
        ));
        before
    }
}

/// The children of a node are laid out in a row.
proof fn lemma_continued_row(input: ParseInput, node: int, from: int, index: int)
    requires
        input.disabled_regions@.len() == 0,
        0 <= from <= index,
        index + 1 < input.tree.child_count_of(node),
    ensures
        in_a_row(
            children_from(input, node, from),
            continued_docs(input, node, index),
            separator_docs(
                input,
                input.tree.kind_of(node),
                input.tree.child_of(node, index),
                input.tree.child_of(node, index + 1),
            ),
            continued_docs(input, node, index + 1),
        ),
    decreases input.tree.children_left(node, from),
{
    let docs = children_from(input, node, from);
    let front = separator_before(input, node, from) + continued_docs(input, node, from);
    let rest = children_from(input, node, from + 1);
    let gap = separator_before(input, node, index + 1);
    let first = continued_docs(input, node, index);
    let second = continued_docs(input, node, index + 1);
    assert(overlap(input, node, from) is Clear);
    assert(docs == front + rest);
    assert(index + 1 - 1 == index);
    if from == index {
        let behind = children_from(input, node, index + 2);
        assert(overlap(input, node, index + 1) is Clear);
        assert(rest == gap + second + behind);
        assert(docs =~= separator_before(input, node, from) + first + gap + second + behind);
        lemma_row(separator_before(input, node, from), first, gap, second, behind);
    } else {
        lemma_continued_row(input, node, from + 1, index);
        lemma_row_inside(front, rest, nothing(), first, gap, second);
        assert(docs =~= front + rest + nothing());
    }
}

/// A backslash that continues a line stays behind what stands in front of it, and
/// ends the line. What follows on the next line is indented as the options ask for.
pub proof fn backslashes_end_their_line(input: ParseInput, node: int, index: int)
    requires
        input.disabled_regions@.len() == 0,
        kind_is_plain(input.tree.kind_of(node)) || input.tree.kind_of(node)
            == GDScriptNodeKind::BinaryOperator,
        0 < index,
        index + 1 < input.tree.child_count_of(node),
        input.tree.child_kind_of(node, index) == GDScriptNodeKind::LineContinuation,
        input.tree.child_kind_of(node, index + 1) != GDScriptNodeKind::LineContinuation,
        is_plain_part(input, node, index - 1),
    ensures
        ({
            let kind = input.tree.kind_of(node);
            let previous = input.tree.child_of(node, index - 1);
            let backslash = input.tree.child_of(node, index);
            let next = input.tree.child_of(node, index + 1);
            let start = input.tree.start_of(backslash);
            let line_end = source_text(start, start + 1) + hard_line();
            exists|before: Seq<Doc>, after: Seq<Doc>|
                #![trigger is_part_gap(input, kind, previous, backslash, before), is_part_gap(
                    input,
                    kind,
                    backslash,
                    next,
                    after,
                )]
                {
                    &&& is_part_gap(input, kind, previous, backslash, before)
                    &&& in_a_row(
                        node_docs(input, node),
                        child_docs(input, node, index - 1),
                        before,
                        line_end,
                    )
                    &&& is_part_gap(input, kind, backslash, next, after)
                    &&& in_a_row(
                        node_docs(input, node),
                        line_end,
                        after,
                        indented(
                            input.continuation_indent_level as int,
                            child_docs(input, node, index + 1),
                        ),
                    )
                }
        }),
{
    let kind = input.tree.kind_of(node);
    let count = input.tree.child_count_of(node);
    let previous = input.tree.child_of(node, index - 1);
    let backslash = input.tree.child_of(node, index);
    let next = input.tree.child_of(node, index + 1);
    lemma_continued_row(input, node, 0, index - 1);
    lemma_continued_row(input, node, 0, index);
    separators_keep_words_apart(input, kind, previous, backslash);
    separators_keep_words_apart(input, kind, backslash, next);
    first_child_of_kind_is_the_first(
        *input.tree,
        node,
        0,
        count,
        GDScriptNodeKind::LineContinuation,
    );
    assert(input.tree.child_of(node, index) == backslash);
    assert(index - 1 + 1 == index);
    assert(node_docs(input, node) == children_docs(input, node));
    assert(children_docs(input, node) == children_from(input, node, 0));
}

} // verus!
