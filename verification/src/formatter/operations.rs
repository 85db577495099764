//! How binary expressions are laid out.
use vstd::prelude::*;
use vstd::string::StringSliceAdditionalSpecFns;
use vstd::utf8::{is_ascii_chars, is_ascii_chars_encode_utf8};

use crate::document::{
    balanced, balanced_line, fixed, group_concat, grouped, hard_line, if_multiline, indented,
    nothing, space, Doc,
};
use crate::formatter::line_breaks::{is_between_delimiters, kind_is_delimited, lemma_searches};
use crate::formatter::nodes::{below_docs, children_docs, children_from, node_docs};
use crate::formatter::operators::{
    binary_operator_docs, chain_has_comment, chain_segments, comment_segments, continues_left,
    level_segments, operator_docs, segments_from, Segment,
};
use crate::formatter::queries::{
    first_child_of_kind, first_child_of_kind_is_the_first, is_in_single_indent_container,
    is_operator_part, operator_from, operator_of, operator_text,
};
use crate::formatter::spacing::{is_plain_part, lemma_children_row, parts_follow};
use crate::node_kind::GDScriptNodeKind;
use crate::parser::ParseInput;

verus! {

broadcast use group_concat;

/// True of a binary expression of two operands and an operator between them,
/// each of them one child.
pub open spec fn is_operation(input: ParseInput, node: int) -> bool {
    let tree = input.tree;
    &&& tree.has(node)
    &&& tree.kind_of(node) == GDScriptNodeKind::BinaryOperator
    &&& tree.child_count_of(node) == 3
    &&& tree.left_of(node) == Some(tree.child_of(node, 0) as usize)
    &&& tree.right_of(node) == Some(tree.child_of(node, 2) as usize)
    &&& tree.start_of(tree.child_of(node, 0)) < tree.end_of(tree.child_of(node, 0))
    &&& tree.start_of(tree.child_of(node, 1)) < tree.end_of(tree.child_of(node, 1))
    &&& tree.start_of(tree.child_of(node, 2)) < tree.end_of(tree.child_of(node, 2))
    &&& forall|index: int|
        #![trigger tree.child_of(node, index)]
        0 <= index < 3 ==> tree.child_kind_of(node, index) != GDScriptNodeKind::Comment
            && tree.child_kind_of(node, index) != GDScriptNodeKind::LineContinuation
}

/// The source of the operator between two operands.
pub open spec fn spelled_operator(input: ParseInput, node: int) -> Seq<u8> {
    input.text_of(input.tree.child_of(node, 1))
}

/// The operators `and` and `or`, as bytes.
pub open spec fn is_and_or(operator: Seq<u8>) -> bool {
    operator == seq![97u8, 110u8, 100u8] || operator == seq![111u8, 114u8]
}

/// How the words are spelled.
proof fn lemma_words()
    ensures
        "and".spec_bytes() == seq![97u8, 110u8, 100u8],
        "or".spec_bytes() == seq![111u8, 114u8],
{
    reveal_strlit("and");
    reveal_strlit("or");
    assert(is_ascii_chars("and"@));
    assert(is_ascii_chars("or"@));
    is_ascii_chars_encode_utf8("and"@);
    is_ascii_chars_encode_utf8("or"@);
    assert("and"@[0] == 'a' && "and"@[1] == 'n' && "and"@[2] == 'd');
    assert("or"@[0] == 'o' && "or"@[1] == 'r');
    assert("and".spec_bytes() =~= seq![97u8, 110u8, 100u8]);
    assert("or".spec_bytes() =~= seq![111u8, 114u8]);
}

/// The operator of an operation is what stands between its operands.
proof fn lemma_operator(input: ParseInput, node: int)
    requires
        input.tree_fits(),
        is_operation(input, node),
    ensures
        operator_text(input, node) == spelled_operator(input, node),
        operator_of(*input.tree, node) == Some(input.tree.child_of(node, 1)),
        is_operator_part(*input.tree, node, 1),
        !is_operator_part(*input.tree, node, 0),
        !is_operator_part(*input.tree, node, 2),
        node < input.tree.child_of(node, 0),
        node < input.tree.child_of(node, 1),
        node < input.tree.child_of(node, 2),
{
    input.lemma_siblings(node, 0, 1);
    input.lemma_siblings(node, 1, 2);
    input.lemma_siblings(node, 0, 2);
    assert(operator_from(*input.tree, node, 1) == Some(input.tree.child_of(node, 1)));
}

/// An operation has no backslash.
proof fn lemma_no_backslash(input: ParseInput, node: int, kind: GDScriptNodeKind)
    requires
        is_operation(input, node),
        kind == GDScriptNodeKind::LineContinuation || kind == GDScriptNodeKind::Comment,
    ensures
        first_child_of_kind(*input.tree, node, 0, 3, kind) is None,
{
    first_child_of_kind_is_the_first(*input.tree, node, 0, 3, kind);
    match first_child_of_kind(*input.tree, node, 0, 3, kind) {
        Some(index) => {
            assert(input.tree.child_of(node, index) == input.tree.child_of(node, index));
        },
        None => {},
    }
}

/// The line breaks of a chain of operators, and what stands between them, as
/// documents.
pub open spec fn is_chain(docs: Seq<Doc>, chain: Seq<Doc>) -> bool {
    ||| docs == balanced(chain)
    ||| docs == grouped(
        if_multiline(fixed("("@) + hard_line()) + indented(1, balanced(chain)) + if_multiline(
            hard_line() + fixed(")"@),
        ),
    )
}

/// The chain of an operation.
spec fn chain_docs(input: ParseInput, node: int) -> Seq<Doc> {
    let operator = operator_text(input, node);
    segments_from(
        input,
        node,
        chain_segments(input, node, operator),
        0,
        chain_has_comment(input, node, operator),
    )
}

/// A boolean expression that is not between delimiters gets parentheses where it
/// breaks: it is a group that starts with a parenthesis and a line break and ends
/// with a line break and a parenthesis, both only where it breaks, around a chain
/// that breaks evenly, one level further to the right.
pub proof fn boolean_expressions_break_in_parentheses(input: ParseInput, node: int)
    requires
        input.tree_fits(),
        is_operation(input, node),
        is_and_or(spelled_operator(input, node)),
        !is_between_delimiters(*input.tree, node),
    ensures
        exists|chain: Seq<Doc>|
            node_docs(input, node) == #[trigger] grouped(
                if_multiline(fixed("("@) + hard_line()) + indented(1, balanced(chain))
                    + if_multiline(hard_line() + fixed(")"@)),
            ),
{
    lemma_operator(input, node);
    lemma_words();
    lemma_searches(*input.tree, node);
    lemma_no_backslash(input, node, GDScriptNodeKind::LineContinuation);
    assert(node_docs(input, node) == binary_operator_docs(input, node));
    let chain = chain_docs(input, node);
    assert(node_docs(input, node) == grouped(
        if_multiline(fixed("("@) + hard_line()) + indented(1, balanced(chain)) + if_multiline(
            hard_line() + fixed(")"@),
        ),
    ));
}

/// Directly between delimiters, every binary expression is a chain that breaks
/// evenly, without parentheses of its own.
pub proof fn operations_between_delimiters_break_evenly(input: ParseInput, node: int)
    requires
        input.tree_fits(),
        is_operation(input, node),
        input.tree.parent_of(node) matches Some(parent) && parent < node && kind_is_delimited(
            input.tree.kind_of(parent as int),
        ),
    ensures
        exists|chain: Seq<Doc>| node_docs(input, node) == #[trigger] balanced(chain),
{
    lemma_operator(input, node);
    lemma_no_backslash(input, node, GDScriptNodeKind::LineContinuation);
    assert(is_in_single_indent_container(*input.tree, node));
    assert(node_docs(input, node) == binary_operator_docs(input, node));
    assert(node_docs(input, node) == balanced(chain_docs(input, node)));
}

/// Any other binary expression stays on its line: its operands and its operator
/// follow each other with what may stand between parts.
pub proof fn other_operations_stay_on_their_line(input: ParseInput, node: int, index: int)
    requires
        input.tree_fits(),
        input.disabled_regions@.len() == 0,
        is_operation(input, node),
        !is_and_or(spelled_operator(input, node)),
        !is_between_delimiters(*input.tree, node),
        index == 0 || index == 1,
    ensures
        parts_follow(
            input,
            node,
            GDScriptNodeKind::BinaryOperator,
            node_docs(input, node),
            index,
        ),
{
    lemma_operator(input, node);
    lemma_words();
    lemma_searches(*input.tree, node);
    assert(node_docs(input, node) == binary_operator_docs(input, node));
    assert(children_docs(input, node) == children_from(input, node, 0));
    assert(is_plain_part(input, node, index) && is_plain_part(input, node, index + 1)) by {
        assert(input.tree.child_of(node, index) == input.tree.child_of(node, index));
        assert(input.tree.child_of(node, index + 1) == input.tree.child_of(node, index + 1));
        assert(input.tree.child_of(node, 0) == input.tree.child_of(node, 0));
    }
    lemma_children_row(input, node, 0, index);
}

/// True of the parts of a chain below a node.
spec fn are_below(input: ParseInput, node: int, segments: Seq<Segment>) -> bool {
    forall|i: int|
        0 <= i < segments.len() ==> {
            &&& node < (#[trigger] segments[i]).expression < input.tree.size()
            &&& segments[i].operated_by matches Some(operated_by) ==> node <= operated_by
                && input.tree.has(operated_by)
        }
}

/// The parts of a chain stand below the node that ends it.
proof fn lemma_below(input: ParseInput, node: int, root: int, operator: Seq<u8>)
    requires
        input.tree_fits(),
        input.tree.has(node),
        root <= node,
    ensures
        are_below(input, root, chain_segments(input, node, operator)),
    decreases input.tree.size() - node,
{
    let tree = *input.tree;
    let level = level_segments(tree, node);
    tree.lemma_links(node);
    lemma_comments_below(input, node, root, 0);
    let comments = comment_segments(tree, node, 0);
    assert forall|i: int| 0 <= i < level.len() implies {
        &&& root < (#[trigger] level[i]).expression < input.tree.size()
        &&& level[i].operated_by matches Some(operated_by) ==> root <= operated_by
            && input.tree.has(operated_by)
    } by {
        if i < comments.len() {
            assert(level[i] == comments[i]);
        }
    }
    match tree.left_of(node) {
        Some(left) => {
            let front = if continues_left(input, node, operator) {
                lemma_below(input, left as int, root, operator);
                chain_segments(input, left as int, operator)
            } else {
                seq![Segment { operated_by: None, expression: left as int }]
            };
            let all = front + level;
            assert(chain_segments(input, node, operator) == all);
            assert forall|i: int| 0 <= i < all.len() implies {
                &&& root < (#[trigger] all[i]).expression < input.tree.size()
                &&& all[i].operated_by matches Some(operated_by) ==> root <= operated_by
                    && input.tree.has(operated_by)
            } by {
                if i < front.len() {
                    assert(all[i] == front[i]);
                } else {
                    assert(all[i] == level[i - front.len()]);
                }
            }
        },
        None => {},
    }
}

/// The comments of a node stand below it.
proof fn lemma_comments_below(input: ParseInput, node: int, root: int, index: int)
    requires
        input.tree_fits(),
        input.tree.has(node),
        root <= node,
        0 <= index,
    ensures
        are_below(input, root, comment_segments(*input.tree, node, index)),
    decreases input.tree.child_count_of(node) - index,
{
    if index < input.tree.child_count_of(node) {
        input.tree.lemma_child(node, index);
        lemma_comments_below(input, node, root, index + 1);
        let rest = comment_segments(*input.tree, node, index + 1);
        if input.tree.child_kind_of(node, index) == GDScriptNodeKind::Comment {
            let first = seq![
                Segment { operated_by: None, expression: input.tree.child_of(node, index) },
            ];
            let all = first + rest;
            assert(comment_segments(*input.tree, node, index) == all);
            assert forall|i: int| 0 <= i < all.len() implies {
                &&& root < (#[trigger] all[i]).expression < input.tree.size()
                &&& all[i].operated_by matches Some(operated_by) ==> root <= operated_by
                    && input.tree.has(operated_by)
            } by {
                if i > 0 {
                    assert(all[i] == rest[i - 1]);
                }
            }
        }
    }
}

/// An operator is laid out the same from everywhere above it.
proof fn lemma_same_operator(
    input: ParseInput,
    first: int,
    second: int,
    node: int,
    index: int,
    has_part: bool,
)
    requires
        input.tree_fits(),
        input.tree.has(node),
        first <= node,
        second <= node,
        0 <= index,
    ensures
        operator_docs(input, first, node, index, has_part) == operator_docs(
            input,
            second,
            node,
            index,
            has_part,
        ),
    decreases input.tree.child_count_of(node) - index,
{
    if index < input.tree.child_count_of(node) {
        let child = input.tree.child_of(node, index);
        input.tree.lemma_child(node, index);
        assert(below_docs(input, first, child) == node_docs(input, child));
        assert(below_docs(input, second, child) == node_docs(input, child));
        lemma_same_operator(input, first, second, node, index + 1, true);
        lemma_same_operator(input, first, second, node, index + 1, has_part);
    }
}

/// The parts of a chain are laid out the same from everywhere above them, and
/// what follows them comes behind.
proof fn lemma_segments_split(
    input: ParseInput,
    first: int,
    second: int,
    segments: Seq<Segment>,
    more: Seq<Segment>,
    index: int,
    has_comment: bool,
)
    requires
        input.tree_fits(),
        first <= second,
        are_below(input, second, segments),
        0 <= index <= segments.len(),
    ensures
        segments_from(input, first, segments + more, index, has_comment) == segments_from(
            input,
            second,
            segments,
            index,
            has_comment,
        ) + segments_from(input, first, segments + more, segments.len() as int, has_comment),
    decreases segments.len() - index,
{
    let all = segments + more;
    if index < segments.len() {
        let segment = segments[index];
        assert(all[index] == segment);
        match segment.operated_by {
            Some(operated_by) => {
                lemma_same_operator(input, first, second, operated_by, 0, false);
            },
            None => {},
        }
        assert(below_docs(input, first, segment.expression) == below_docs(
            input,
            second,
            segment.expression,
        ));
        lemma_segments_split(input, first, second, segments, more, index + 1, has_comment);
    } else {
        assert(segments_from(input, second, segments, index, has_comment) == nothing());
    }
}

/// True of a chain of an operation that is what the chain `start` of its left
/// operand becomes, or what its left operand becomes that is no operation.
pub open spec fn grows(input: ParseInput, node: int, chain: Seq<Doc>, start: Seq<Doc>) -> bool {
    let left = input.tree.child_of(node, 0);
    let end = node_docs(input, input.tree.child_of(node, 1)) + space() + node_docs(
        input,
        input.tree.child_of(node, 2),
    );
    let continues = is_operation(input, left) && spelled_operator(input, left) == spelled_operator(
        input,
        node,
    );
    &&& is_chain(node_docs(input, node), chain)
    &&& continues ==> is_chain(node_docs(input, left), start) && (chain == start + balanced_line()
        + end || chain == start + hard_line() + end)
    &&& input.tree.kind_of(left) != GDScriptNodeKind::BinaryOperator ==> chain == node_docs(
        input,
        left,
    ) + balanced_line() + end
}

/// A chain grows by one operator: it is the chain of its left operand if that has
/// the same operator, or else the left operand, then a possible line break, the
/// operator, a space, and the right operand. So it breaks in front of every
/// operator or nowhere, and all operands are in it, from left to right. With a
/// comment somewhere in the chain it does break.
pub proof fn chains_grow_by_one_operator(input: ParseInput, node: int)
    requires
        input.tree_fits(),
        is_operation(input, node),
        is_and_or(spelled_operator(input, node)),
    ensures
        exists|chain: Seq<Doc>, start: Seq<Doc>| #[trigger] grows(input, node, chain, start),
{
    let tree = *input.tree;
    let left = tree.child_of(node, 0);
    let middle = tree.child_of(node, 1);
    let right = tree.child_of(node, 2);
    let operator = operator_text(input, node);
    let has_comment = chain_has_comment(input, node, operator);
    let chain = chain_docs(input, node);
    let end = node_docs(input, middle) + space() + node_docs(input, right);
    let level = level_segments(tree, node);
    lemma_operator(input, node);
    lemma_words();
    lemma_no_backslash(input, node, GDScriptNodeKind::LineContinuation);
    lemma_no_backslash(input, node, GDScriptNodeKind::Comment);
    lemma_no_comments(input, node, 0);
    assert(node_docs(input, node) == binary_operator_docs(input, node));
    assert(is_chain(node_docs(input, node), chain));
    let last = Segment { operated_by: Some(node), expression: right };
    assert(level =~= seq![last]);
    assert(operator_docs(input, node, node, 0, false) == node_docs(input, middle)) by {
        assert(operator_docs(input, node, node, 3, true) == nothing());
        assert(operator_docs(input, node, node, 2, true) == nothing());
        assert(below_docs(input, node, middle) == node_docs(input, middle));
        assert(operator_docs(input, node, node, 1, false) =~= node_docs(input, middle));
    }
    assert(below_docs(input, node, right) == node_docs(input, right));
    assert(below_docs(input, node, left) == node_docs(input, left));
    assert(tree.kind_of(right) != GDScriptNodeKind::Comment) by {
        assert(tree.child_of(node, 2) == right);
    }
    let front = if continues_left(input, node, operator) {
        chain_segments(input, left, operator)
    } else {
        seq![Segment { operated_by: None, expression: left }]
    };
    let segments = front + level;
    assert(chain_segments(input, node, operator) == segments);
    let line = if has_comment {
        hard_line()
    } else {
        balanced_line()
    };
    let count = front.len() as int;
    assert(segments[count] == last);
    assert(segments_from(input, node, segments, count + 1, has_comment) == nothing());
    assert(segments_from(input, node, segments, count, has_comment) =~= line + end);
    if is_operation(input, left) && spelled_operator(input, left) == spelled_operator(input, node) {
        lemma_operator(input, left);
        lemma_no_backslash(input, left, GDScriptNodeKind::LineContinuation);
        lemma_below(input, left, left, operator);
        assert(continues_left(input, node, operator));
        lemma_segments_split(input, node, left, front, level, 0, has_comment);
        assert(chain_has_comment(input, left, operator) == has_comment);
        let start = chain_docs(input, left);
        assert(node_docs(input, left) == binary_operator_docs(input, left));
        assert(is_chain(node_docs(input, left), start));
        assert(chain =~= start + line + end);
        assert(grows(input, node, chain, start));
    } else {
        if tree.kind_of(left) != GDScriptNodeKind::BinaryOperator {
            assert(!has_comment);
            assert(tree.kind_of(left) != GDScriptNodeKind::Comment) by {
                assert(tree.child_of(node, 0) == left);
            }
            assert(segments[0] == front[0]);
            assert(chain =~= node_docs(input, left) + balanced_line() + end);
        }
        assert(grows(input, node, chain, nothing()));
    }
}

/// An operation has no comments.
proof fn lemma_no_comments(input: ParseInput, node: int, index: int)
    requires
        is_operation(input, node),
        0 <= index,
    ensures
        comment_segments(*input.tree, node, index) == Seq::<Segment>::empty(),
    decreases 3 - index,
{
    if index < 3 {
        assert(input.tree.child_of(node, index) == input.tree.child_of(node, index));
        lemma_no_comments(input, node, index + 1);
    }
}

/// A comment is among the parts of a chain.
proof fn lemma_comment_segment(input: ParseInput, node: int, from: int, index: int) -> (at: int)
    requires
        0 <= from <= index < input.tree.child_count_of(node),
        input.tree.child_kind_of(node, index) == GDScriptNodeKind::Comment,
    ensures
        0 <= at < comment_segments(*input.tree, node, from).len(),
        comment_segments(*input.tree, node, from)[at].expression == input.tree.child_of(node, index),
    decreases index - from,
{
    if from == index {
        0
    } else {
        let at = lemma_comment_segment(input, node, from + 1, index);
        if input.tree.child_kind_of(node, from) == GDScriptNodeKind::Comment {
            at + 1
        } else {
            at
        }
    }
}

/// The comments of a binary expression are comments.
proof fn lemma_are_comments(input: ParseInput, node: int, from: int)
    requires
        0 <= from,
    ensures
        forall|i: int|
            0 <= i < comment_segments(*input.tree, node, from).len() ==> {
                &&& input.tree.kind_of(
                    (#[trigger] comment_segments(*input.tree, node, from)[i]).expression,
                ) == GDScriptNodeKind::Comment
                &&& comment_segments(*input.tree, node, from)[i].operated_by is None
            },
    decreases input.tree.child_count_of(node) - from,
{
    if from < input.tree.child_count_of(node) {
        lemma_are_comments(input, node, from + 1);
        let rest = comment_segments(*input.tree, node, from + 1);
        let all = comment_segments(*input.tree, node, from);
        assert forall|i: int| 0 <= i < all.len() implies {
            &&& input.tree.kind_of((#[trigger] all[i]).expression) == GDScriptNodeKind::Comment
            &&& all[i].operated_by is None
        } by {
            if input.tree.child_kind_of(node, from) == GDScriptNodeKind::Comment && i > 0 {
                assert(all[i] == rest[i - 1]);
            }
        }
    }
}

/// In a chain, what stands at an index is followed by the next part.
proof fn lemma_segment_at(
    input: ParseInput,
    node: int,
    segments: Seq<Segment>,
    from: int,
    at: int,
    has_comment: bool,
) -> (front: Seq<Doc>)
    requires
        0 <= from <= at < segments.len(),
    ensures
        segments_from(input, node, segments, from, has_comment) == front + segments_from(
            input,
            node,
            segments,
            at,
            has_comment,
        ),
    decreases at - from,
{
    if from == at {
        assert(nothing() + segments_from(input, node, segments, from, has_comment)
            =~= segments_from(input, node, segments, from, has_comment));
        nothing()
    } else {
        let inner = lemma_segment_at(input, node, segments, from + 1, at, has_comment);
        let segment = segments[from];
        let head = (if from > 0 && input.tree.kind_of(segment.expression)
            == GDScriptNodeKind::Comment {
            hard_line()
        } else {
            nothing()
        }) + (match segment.operated_by {
            Some(operated_by) => (if has_comment {
                hard_line()
            } else {
                balanced_line()
            }) + operator_docs(input, node, operated_by, 0, false) + space(),
            None => nothing(),
        }) + below_docs(input, node, segment.expression);
        head + inner
    }
}

/// In a chain that breaks, a line break follows what stands in front of a comment
/// or an operator.
proof fn lemma_line_behind(
    input: ParseInput,
    node: int,
    segments: Seq<Segment>,
    at: int,
) -> (parts: (Seq<Doc>, Seq<Doc>))
    requires
        0 <= at,
        at + 1 < segments.len(),
        node < segments[at].expression < input.tree.size(),
        segments[at].operated_by is None,
        input.tree.kind_of(segments[at + 1].expression) == GDScriptNodeKind::Comment
            || segments[at + 1].operated_by is Some,
    ensures
        segments_from(input, node, segments, 0, true) == parts.0 + node_docs(
            input,
            segments[at].expression,
        ) + hard_line() + parts.1,
{
    let front = lemma_segment_at(input, node, segments, 0, at, true);
    let docs = node_docs(input, segments[at].expression);
    let lead = if at > 0 && input.tree.kind_of(segments[at].expression)
        == GDScriptNodeKind::Comment {
        hard_line()
    } else {
        nothing()
    };
    let rest = segments_from(input, node, segments, at + 1, true);
    assert(below_docs(input, node, segments[at].expression) == docs);
    assert(segments_from(input, node, segments, at, true) == lead + docs + rest);
    let after = lemma_starts_with_line(input, node, segments, at + 1);
    (front + lead, after)
}

/// In a chain that breaks, a comment or an operator starts with a line break.
proof fn lemma_starts_with_line(
    input: ParseInput,
    node: int,
    segments: Seq<Segment>,
    at: int,
) -> (after: Seq<Doc>)
    requires
        0 < at < segments.len(),
        input.tree.kind_of(segments[at].expression) == GDScriptNodeKind::Comment
            || segments[at].operated_by is Some,
    ensures
        segments_from(input, node, segments, at, true) == hard_line() + after,
{
    let rest = segments_from(input, node, segments, at + 1, true);
    let docs = below_docs(input, node, segments[at].expression);
    let operator = match segments[at].operated_by {
        Some(operated_by) => operator_docs(input, node, operated_by, 0, false) + space(),
        None => nothing(),
    };
    if input.tree.kind_of(segments[at].expression) == GDScriptNodeKind::Comment {
        (if segments[at].operated_by is Some {
            hard_line() + operator
        } else {
            nothing()
        }) + docs + rest
    } else {
        operator + docs + rest
    }
}

/// A comment between the operands of a chain ends its line: a line break follows
/// it, and then the operator and what stands behind it.
pub proof fn comments_in_chains_end_their_line(input: ParseInput, node: int, index: int)
    requires
        input.tree_fits(),
        input.tree.has(node),
        input.tree.kind_of(node) == GDScriptNodeKind::BinaryOperator,
        input.tree.child_count_of(node) >= 3,
        is_and_or(operator_text(input, node)),
        input.tree.right_of(node) is Some,
        input.tree.kind_of(input.tree.right_of(node)->0 as int) != GDScriptNodeKind::Comment,
        forall|other: int|
            0 <= other < input.tree.child_count_of(node) ==> #[trigger] input.tree.child_kind_of(
                node,
                other,
            ) != GDScriptNodeKind::LineContinuation,
        0 <= index < input.tree.child_count_of(node),
        input.tree.child_kind_of(node, index) == GDScriptNodeKind::Comment,
    ensures
        exists|chain: Seq<Doc>, before: Seq<Doc>, after: Seq<Doc>|
            #![trigger before + node_docs(input, input.tree.child_of(node, index)) + hard_line()
                + after, is_chain(node_docs(input, node), chain)]
            is_chain(node_docs(input, node), chain) && chain == before + node_docs(
                input,
                input.tree.child_of(node, index),
            ) + hard_line() + after,
{
    let tree = *input.tree;
    let count = tree.child_count_of(node);
    let operator = operator_text(input, node);
    let comment = tree.child_of(node, index);
    let chain = chain_docs(input, node);
    let segments = chain_segments(input, node, operator);
    let level = level_segments(tree, node);
    let comments = comment_segments(tree, node, 0);
    let kind = GDScriptNodeKind::LineContinuation;
    lemma_words();
    assert(operator.len() == 2 || operator.len() == 3);
    assert(operator_of(tree, node) is Some);
    first_child_of_kind_is_the_first(tree, node, 0, count, kind);
    assert(first_child_of_kind(tree, node, 0, count, kind) is None) by {
        match first_child_of_kind(tree, node, 0, count, kind) {
            Some(found) => {
                assert(tree.child_kind_of(node, found) == kind);
            },
            None => {},
        }
    }
    first_child_of_kind_is_the_first(tree, node, 0, count, GDScriptNodeKind::Comment);
    assert(tree.child_of(node, index) == comment);
    assert(chain_has_comment(input, node, operator));
    assert(node_docs(input, node) == binary_operator_docs(input, node));
    assert(is_chain(node_docs(input, node), chain));
    let at = lemma_comment_segment(input, node, 0, index);
    lemma_are_comments(input, node, 0);
    tree.lemma_links(node);
    input.tree.lemma_child(node, index);
    let start = segments.len() - level.len();
    assert(segments[start + at] == level[at]);
    assert(level[at] == comments[at]);
    assert(segments[start + at + 1] == level[at + 1]);
    if at + 1 < comments.len() {
        assert(level[at + 1] == comments[at + 1]);
    }
    let (before, after) = lemma_line_behind(input, node, segments, start + at);
    assert(chain == before + node_docs(input, comment) + hard_line() + after);
}

} // verus!
