//! Lays out binary operators and conditional expressions.
use vstd::prelude::*;
use vstd::string::StringSliceAdditionalSpecFns;

use crate::document::{
    balanced, balanced_line, fixed, force_break, group_concat, grouped, hard_line, if_multiline,
    indented, nothing, soft_line, space, Doc,
};
use crate::formatter::nodes::{
    below_docs, children_docs, continued_docs, node_docs, process_children_with_spacing,
    process_continued, process_node, process_separator,
};
use crate::formatter::queries::{
    binary_operator_token, child_is_operator_part, expression_is_in_single_indent_container,
    has_child, has_child_of_kind, is_in_single_indent_container, is_inside_parentheses,
    is_inside_parenthesized_expression, is_operator_part, operator_is, operator_of, operator_text,
};
use crate::formatter::separators::separator_docs;
use crate::node_kind::GDScriptNodeKind;
use crate::parser::ParseInput;
use crate::syntax_tree::SyntaxTree;
use crate::text::{contains_newline, has_newline, same_range, same_text};
use crate::writer::{is_writing, wrote, ElementWriter, SpanKind};

verus! {

broadcast use group_concat;

/// A part of a chain of binary operators: an operand, or a comment between the
/// operands.
#[derive(Clone, Copy, Debug)]
pub struct BinaryChainSegment {
    /// The binary expression whose operator stands in front of the operand, if
    /// there is one.
    pub operated_by: Option<usize>,
    pub expression: usize,
}

/// A part of a chain of binary operators, as mathematical values.
pub struct Segment {
    pub operated_by: Option<int>,
    pub expression: int,
}

impl View for BinaryChainSegment {
    type V = Segment;

    open spec fn view(&self) -> Segment {
        Segment {
            operated_by: match self.operated_by {
                Some(node) => Some(node as int),
                None => None,
            },
            expression: self.expression as int,
        }
    }
}

/// What a vector of segments holds.
pub open spec fn segment_views(segments: Seq<BinaryChainSegment>) -> Seq<Segment> {
    Seq::new(segments.len(), |i: int| segments[i]@)
}

/// The comments of a binary expression, from the child at `index` on.
pub open spec fn comment_segments(tree: SyntaxTree, node: int, index: int) -> Seq<Segment>
    decreases tree.child_count_of(node) - index,
{
    if index >= tree.child_count_of(node) {
        Seq::empty()
    } else if tree.child_kind_of(node, index) == GDScriptNodeKind::Comment {
        seq![Segment { operated_by: None, expression: tree.child_of(node, index) }]
            + comment_segments(tree, node, index + 1)
    } else {
        comment_segments(tree, node, index + 1)
    }
}

/// What a binary expression adds to the chain that its left operand starts: its
/// comments, and its right operand with the operator.
pub open spec fn level_segments(tree: SyntaxTree, node: int) -> Seq<Segment> {
    comment_segments(tree, node, 0) + match tree.right_of(node) {
        Some(right) => seq![
            Segment {
                operated_by: if operator_of(tree, node) is Some {
                    Some(node)
                } else {
                    None
                },
                expression: right as int,
            },
        ],
        None => Seq::empty(),
    }
}

/// True where the left operand of a binary expression is one with the given
/// operator, so that both belong to one chain.
pub open spec fn continues_left(input: ParseInput, node: int, operator: Seq<u8>) -> bool {
    input.tree.left_of(node) matches Some(left) && node < left < input.tree.size()
        && input.tree.kind_of(left as int) == GDScriptNodeKind::BinaryOperator && operator_text(
        input,
        left as int,
    ) == operator
}

/// The parts of a chain of the same binary operator, from left to right. The
/// tree nests such a chain to the left.
pub open spec fn chain_segments(input: ParseInput, node: int, operator: Seq<u8>) -> Seq<Segment>
    decreases input.tree.size() - node,
{
    match input.tree.left_of(node) {
        Some(left) => if continues_left(input, node, operator) {
            chain_segments(input, left as int, operator) + level_segments(*input.tree, node)
        } else {
            seq![Segment { operated_by: None, expression: left as int }] + level_segments(
                *input.tree,
                node,
            )
        },
        None => level_segments(*input.tree, node),
    }
}

/// True where a comment stands between the operands of a chain.
pub open spec fn chain_has_comment(input: ParseInput, node: int, operator: Seq<u8>) -> bool
    decreases input.tree.size() - node,
{
    ||| has_child_of_kind(*input.tree, node, GDScriptNodeKind::Comment)
    ||| continues_left(input, node, operator) && chain_has_comment(
        input,
        input.tree.left_of(node).unwrap() as int,
        operator,
    )
}

/// The operator of a binary expression, from the child at `index` on, where
/// `ancestor` is the expression that the chain belongs to. Its parts are
/// separated by spaces.
pub open spec fn operator_docs(
    input: ParseInput,
    ancestor: int,
    node: int,
    index: int,
    has_part: bool,
) -> Seq<Doc>
    decreases input.tree.size() - ancestor, 8int, input.tree.child_count_of(node) - index,
{
    if index >= input.tree.child_count_of(node) {
        nothing()
    } else if is_operator_part(*input.tree, node, index) {
        (if has_part {
            space()
        } else {
            nothing()
        }) + below_docs(input, ancestor, input.tree.child_of(node, index)) + operator_docs(
            input,
            ancestor,
            node,
            index + 1,
            true,
        )
    } else {
        operator_docs(input, ancestor, node, index + 1, has_part)
    }
}

/// The parts of a chain from `index` on. It may break in front of operators,
/// and does so where there are comments.
pub open spec fn segments_from(
    input: ParseInput,
    node: int,
    segments: Seq<Segment>,
    index: int,
    has_comment: bool,
) -> Seq<Doc>
    decreases input.tree.size() - node, 10int, segments.len() - index,
{
    if index >= segments.len() {
        nothing()
    } else {
        let segment = segments[index];
        (if index > 0 && input.tree.kind_of(segment.expression) == GDScriptNodeKind::Comment {
            hard_line()
        } else {
            nothing()
        }) + (match segment.operated_by {
            Some(operated_by) => (if has_comment {
                hard_line()
            } else {
                balanced_line()
            }) + operator_docs(input, node, operated_by, 0, false) + space(),
            None => nothing(),
        }) + below_docs(input, node, segment.expression) + segments_from(
            input,
            node,
            segments,
            index + 1,
            has_comment,
        )
    }
}

/// True of the operators `and` and `or`.
pub open spec fn is_boolean_operator(operator: Seq<u8>) -> bool {
    operator == "and".spec_bytes() || operator == "or".spec_bytes()
}

/// A binary expression. A chain of the same operator spreads its line breaks
/// evenly, and stands in parentheses where it breaks outside of a delimited
/// expression, which only boolean operators do.
pub open spec fn binary_operator_docs(input: ParseInput, node: int) -> Seq<Doc>
    decreases input.tree.size() - node, 15int, 0int,
{
    let operator = operator_text(input, node);
    let is_boolean = is_boolean_operator(operator);
    let is_delimited = is_in_single_indent_container(*input.tree, node);
    if input.tree.child_count_of(node) < 3 || has_child_of_kind(
        *input.tree,
        node,
        GDScriptNodeKind::LineContinuation,
    ) || !is_boolean && !is_delimited {
        children_docs(input, node)
    } else {
        let chain = balanced(
            segments_from(
                input,
                node,
                chain_segments(input, node, operator),
                0,
                chain_has_comment(input, node, operator),
            ),
        );
        if is_delimited {
            chain
        } else {
            grouped(
                if_multiline(fixed("("@) + hard_line()) + indented(1, chain) + if_multiline(
                    hard_line() + fixed(")"@),
                ),
            )
        }
    }
}

/// What the binary expressions in `levels` add to a chain, the last one first.
pub open spec fn levels_segments(tree: SyntaxTree, levels: Seq<usize>) -> Seq<Segment>
    decreases levels.len(),
{
    if levels.len() == 0 {
        Seq::empty()
    } else {
        level_segments(tree, levels.last() as int) + levels_segments(tree, levels.drop_last())
    }
}

/// Tells whether two binary expressions have the same operator.
fn has_same_operator(input: &ParseInput, first: usize, second: usize) -> (same: bool)
    requires
        input.tree_fits(),
        input.tree.has(first as int),
        input.tree.has(second as int),
    ensures
        same == (operator_text(*input, first as int) == operator_text(*input, second as int)),
{
    let first_token = binary_operator_token(input.tree, first);
    let second_token = binary_operator_token(input.tree, second);
    let (first_start, first_end): (usize, usize) = match first_token {
        Some(token) => {
            proof {
                input.lemma_node(token as int);
            }
            (input.tree.start_byte(token), input.tree.end_byte(token))
        },
        None => (0, 0),
    };
    let (second_start, second_end): (usize, usize) = match second_token {
        Some(token) => {
            proof {
                input.lemma_node(token as int);
            }
            (input.tree.start_byte(token), input.tree.end_byte(token))
        },
        None => (0, 0),
    };
    assert(input.bytes().subrange(0, 0) =~= Seq::<u8>::empty());
    same_range(
        input.source.as_bytes(),
        first_start,
        first_end,
        second_start,
        second_end,
    )
}

/// True of segments whose nodes stand below the expression that the chain
/// belongs to.
pub open spec fn segments_are_below(
    tree: SyntaxTree,
    node: int,
    segments: Seq<BinaryChainSegment>,
) -> bool {
    forall|i: int|
        0 <= i < segments.len() ==> {
            &&& node < (#[trigger] segments[i]).expression < tree.size()
            &&& segments[i].operated_by matches Some(operated_by) ==> node <= operated_by
                < tree.size()
        }
}

/// Collects the comments and the right operand of a binary expression.
fn collect_level(
    tree: &SyntaxTree,
    Ghost(root): Ghost<int>,
    node: usize,
    segments: &mut Vec<BinaryChainSegment>,
)
    requires
        tree.is_linked(),
        0 <= root <= node < tree.size(),
        segments_are_below(*tree, root, old(segments)@),
    ensures
        segment_views(final(segments)@) == segment_views(old(segments)@) + level_segments(
            *tree,
            node as int,
        ),
        segments_are_below(*tree, root, final(segments)@),
{
    let ghost before = segment_views(segments@);
    let count: usize = tree.child_count(node);
    let mut index: usize = 0;
    while index < count
        invariant
            index <= count == tree.child_count_of(node as int),
            tree.is_linked(),
            0 <= root <= node < tree.size(),
            segments_are_below(*tree, root, segments@),
            segment_views(segments@) + comment_segments(*tree, node as int, index as int) =~= before
                + comment_segments(*tree, node as int, 0),
        decreases count - index,
    {
        proof {
            tree.lemma_child(node as int, index as int);
        }
        let child: usize = tree.child(node, index);
        if tree.kind(child) == GDScriptNodeKind::Comment {
            let ghost views = segment_views(segments@);
            segments.push(BinaryChainSegment { operated_by: None, expression: child });
            assert(segment_views(segments@) =~= views + seq![
                Segment { operated_by: None, expression: child as int },
            ]);
        }
        index = index + 1;
    }
    assert(segment_views(segments@) =~= before + comment_segments(*tree, node as int, 0));
    proof {
        tree.lemma_links(node as int);
    }
    match tree.right(node) {
        Some(right) => {
            let operated_by = if binary_operator_token(tree, node).is_some() {
                Some(node)
            } else {
                None
            };
            let ghost views = segment_views(segments@);
            segments.push(BinaryChainSegment { operated_by, expression: right });
            assert(segment_views(segments@) =~= views.push(segments@.last()@));
        },
        None => {},
    }
    assert(segment_views(segments@) =~= before + level_segments(*tree, node as int));
}

/// Collects the parts of a chain of the same binary operator, and tells whether
/// a comment stands between them.
fn collect_chain(input: &ParseInput, node: usize) -> (collected: (Vec<BinaryChainSegment>, bool))
    requires
        input.tree_fits(),
        input.tree.has(node as int),
    ensures
        segment_views(collected.0@) == chain_segments(
            *input,
            node as int,
            operator_text(*input, node as int),
        ),
        collected.1 == chain_has_comment(
            *input,
            node as int,
            operator_text(*input, node as int),
        ),
        segments_are_below(*input.tree, node as int, collected.0@),
{
    let ghost operator = operator_text(*input, node as int);
    let tree = input.tree;
    let mut levels: Vec<usize> = Vec::new();
    let mut current: usize = node;
    let mut has_comment = has_child(tree, node, GDScriptNodeKind::Comment);
    let mut continues = true;
    assert(chain_segments(*input, node as int, operator) + levels_segments(*tree, levels@)
        =~= chain_segments(*input, node as int, operator));
    while continues
        invariant
            input.tree_fits(),
            tree == input.tree,
            input.tree.has(node as int),
            operator == operator_text(*input, node as int),
            node <= current < tree.size(),
            forall|i: int| 0 <= i < levels@.len() ==> node <= #[trigger] levels@[i] < tree.size(),
            chain_segments(*input, node as int, operator) == chain_segments(
                *input,
                current as int,
                operator,
            ) + levels_segments(*tree, levels@),
            chain_has_comment(*input, node as int, operator) == (has_comment || continues_left(
                *input,
                current as int,
                operator,
            ) && chain_has_comment(
                *input,
                tree.left_of(current as int).unwrap() as int,
                operator,
            )),
            !continues ==> !continues_left(*input, current as int, operator),
        decreases tree.size() - current, continues as int,
    {
        proof {
            tree.lemma_links(current as int);
        }
        continues = false;
        match tree.left(current) {
            Some(left) => {
                if tree.kind(left) == GDScriptNodeKind::BinaryOperator && has_same_operator(
                    input,
                    left,
                    node,
                ) {
                    let ghost outer = levels@;
                    levels.push(current);
                    proof {
                        assert(levels@.last() == current);
                        assert(levels@.drop_last() =~= outer);
                        assert(chain_segments(*input, current as int, operator) == chain_segments(
                            *input,
                            left as int,
                            operator,
                        ) + level_segments(*tree, current as int));
                        assert(chain_segments(*input, node as int, operator) =~= chain_segments(
                            *input,
                            left as int,
                            operator,
                        ) + levels_segments(*tree, levels@));
                    }
                    has_comment = has_comment || has_child(tree, left, GDScriptNodeKind::Comment);
                    current = left;
                    continues = true;
                }
            },
            None => {},
        }
    }
    let mut segments: Vec<BinaryChainSegment> = Vec::new();
    proof {
        tree.lemma_links(current as int);
        assert(segment_views(segments@) =~= Seq::<Segment>::empty());
    }
    match tree.left(current) {
        Some(left) => {
            segments.push(BinaryChainSegment { operated_by: None, expression: left });
            assert(segment_views(segments@) =~= seq![
                Segment { operated_by: None, expression: left as int },
            ]);
        },
        None => {},
    }
    collect_level(tree, Ghost(node as int), current, &mut segments);
    assert(segment_views(segments@) =~= chain_segments(*input, current as int, operator));
    let ghost total = chain_segments(*input, node as int, operator);
    while levels.len() > 0
        invariant
            input.tree_fits(),
            tree == input.tree,
            input.tree.has(node as int),
            forall|i: int| 0 <= i < levels@.len() ==> node <= #[trigger] levels@[i] < tree.size(),
            segment_views(segments@) + levels_segments(*tree, levels@) == total,
            segments_are_below(*tree, node as int, segments@),
        decreases levels@.len(),
    {
        let ghost outer = levels@;
        let ghost views = segment_views(segments@);
        match levels.pop() {
            Some(level) => {
                assert(level == outer.last() && levels@ =~= outer.drop_last());
                assert(levels_segments(*tree, outer) == level_segments(*tree, level as int)
                    + levels_segments(*tree, levels@));
                collect_level(tree, Ghost(node as int), level, &mut segments);
                assert(segment_views(segments@) + levels_segments(*tree, levels@) =~= views
                    + levels_segments(*tree, outer));
            },
            None => {},
        }
    }
    assert(levels_segments(*tree, levels@) =~= Seq::<Segment>::empty());
    assert(segment_views(segments@) + Seq::<Segment>::empty() =~= segment_views(segments@));
    (segments, has_comment)
}

/// Writes the operator of a binary expression.
fn process_operator(
    input: &ParseInput,
    Ghost(ancestor): Ghost<int>,
    node: usize,
    writer: &mut ElementWriter,
)
    requires
        input.tree_fits(),
        0 <= ancestor <= node < input.tree.size(),
        old(writer).wf(),
    ensures
        wrote(
            *old(writer),
            *final(writer),
            operator_docs(*input, ancestor, node as int, 0, false),
        ),
    decreases input.tree.size() - ancestor, 8int, 0int,
{
    let ghost total = operator_docs(*input, ancestor, node as int, 0, false);
    let count: usize = input.tree.child_count(node);
    let mut index: usize = 0;
    let mut has_emitted_operator = false;
    while index < count
        invariant
            index <= count == input.tree.child_count_of(node as int),
            input.tree_fits(),
            0 <= ancestor <= node < input.tree.size(),
            is_writing(
                *old(writer),
                *writer,
                operator_docs(*input, ancestor, node as int, index as int, has_emitted_operator),
                total,
            ),
        decreases count - index,
    {
        proof {
            input.tree.lemma_child(node as int, index as int);
        }
        if child_is_operator_part(input.tree, node, index) {
            if has_emitted_operator {
                writer.push_space();
            }
            let child: usize = input.tree.child(node, index);
            process_node(input, child, writer);
            assert(below_docs(*input, ancestor, child as int) == node_docs(*input, child as int));
            has_emitted_operator = true;
        }
        index = index + 1;
    }
}

/// Writes the parts of a chain.
fn process_segments(
    input: &ParseInput,
    node: usize,
    segments: &Vec<BinaryChainSegment>,
    has_comment: bool,
    writer: &mut ElementWriter,
)
    requires
        input.tree_fits(),
        input.tree.has(node as int),
        segments_are_below(*input.tree, node as int, segments@),
        old(writer).wf(),
    ensures
        wrote(
            *old(writer),
            *final(writer),
            segments_from(*input, node as int, segment_views(segments@), 0, has_comment),
        ),
    decreases input.tree.size() - node, 10int, 0int,
{
    let ghost views = segment_views(segments@);
    let ghost total = segments_from(*input, node as int, views, 0, has_comment);
    let mut index: usize = 0;
    while index < segments.len()
        invariant
            index <= segments@.len(),
            views == segment_views(segments@),
            input.tree_fits(),
            input.tree.has(node as int),
            segments_are_below(*input.tree, node as int, segments@),
            is_writing(
                *old(writer),
                *writer,
                segments_from(*input, node as int, views, index as int, has_comment),
                total,
            ),
        decreases segments@.len() - index,
    {
        let segment = segments[index];
        assert(views[index as int] == segment@);
        if index > 0 && input.kind(segment.expression) == GDScriptNodeKind::Comment {
            writer.push_hard_line();
        }
        match segment.operated_by {
            Some(operated_by) => {
                if has_comment {
                    writer.push_hard_line();
                } else {
                    writer.push_balanced_line();
                }
                process_operator(input, Ghost(node as int), operated_by, writer);
                writer.push_space();
            },
            None => {},
        }
        process_node(input, segment.expression, writer);
        assert(below_docs(*input, node as int, segment.expression as int) == node_docs(
            *input,
            segment.expression as int,
        ));
        index = index + 1;
    }
}

/// Writes a binary expression. Boolean expressions get parentheses where they
/// wrap on their own, as nothing else would continue the line.
pub fn process_binary_operator(input: &ParseInput, node: usize, writer: &mut ElementWriter)
    requires
        input.tree_fits(),
        input.tree.has(node as int),
        old(writer).wf(),
    ensures
        wrote(*old(writer), *final(writer), binary_operator_docs(*input, node as int)),
    decreases input.tree.size() - node, 15int, 0int,
{
    proof {
        lemma_boolean_operators_are_not_empty();
    }
    if input.tree.child_count(node) < 3 {
        process_children_with_spacing(input, node, writer);
        return ;
    }
    let is_and_or = operator_is(input, node, "and") || operator_is(input, node, "or");
    let has_line_continuation = has_child(input.tree, node, GDScriptNodeKind::LineContinuation);
    let is_in_container = expression_is_in_single_indent_container(input.tree, node);
    if has_line_continuation || (!is_and_or && !is_in_container) {
        process_children_with_spacing(input, node, writer);
        return ;
    }
    let (segments, has_comment) = collect_chain(input, node);
    if is_in_container {
        let chain = writer.begin(SpanKind::BalancedGroup);
        process_segments(input, node, &segments, has_comment, writer);
        writer.finish(chain);
    } else {
        let group = writer.begin_group();
        let opening = writer.begin(SpanKind::MultilineBranch);
        writer.push_fixed("(");
        writer.push_hard_line();
        writer.finish(opening);
        let indent = writer.begin_indent(1);
        let chain = writer.begin(SpanKind::BalancedGroup);
        process_segments(input, node, &segments, has_comment, writer);
        writer.finish(chain);
        writer.finish(indent);
        let closing = writer.begin(SpanKind::MultilineBranch);
        writer.push_hard_line();
        writer.push_fixed(")");
        writer.finish(closing);
        writer.finish(group);
    }
}

/// The boolean operators are spelled with letters.
proof fn lemma_boolean_operators_are_not_empty()
    ensures
        "and".spec_bytes().len() > 0,
        "or".spec_bytes().len() > 0,
{
    reveal_strlit("and");
    reveal_strlit("or");
    assert("and"@ =~= seq!['a', 'n', 'd']);
    assert("or"@ =~= seq!['o', 'r']);
    assert("and"@.len() == 3);
    assert("or"@.len() == 2);
}

/// True of the keywords of a conditional expression.
pub open spec fn is_conditional_keyword(tree: SyntaxTree, node: int) -> bool {
    tree.name_of(node) == "if"@ || tree.name_of(node) == "else"@
}

/// What separates a part of a conditional expression from the one before it. It
/// may break in front of its keywords.
pub open spec fn conditional_separator_docs(input: ParseInput, node: int, index: int) -> Seq<Doc> {
    let previous = input.tree.child_of(node, index - 1);
    let current = input.tree.child_of(node, index);
    if is_conditional_keyword(*input.tree, current) && input.tree.kind_of(previous)
        != GDScriptNodeKind::LineContinuation && input.tree.kind_of(previous)
        != GDScriptNodeKind::Comment {
        soft_line()
    } else {
        separator_docs(input, GDScriptNodeKind::Condition, previous, current)
    }
}

/// The parts of a conditional expression from `index` on.
pub open spec fn conditional_from(input: ParseInput, node: int, index: int) -> Seq<Doc>
    decreases input.tree.size() - node, 10int, input.tree.child_count_of(node) - index,
{
    if index >= input.tree.child_count_of(node) {
        nothing()
    } else {
        (if index > 0 {
            conditional_separator_docs(input, node, index)
        } else {
            nothing()
        }) + continued_docs(input, node, index) + conditional_from(input, node, index + 1)
    }
}

/// A conditional expression. One that spans several lines in the source does so
/// in the layout, and stands in parentheses unless something else continues its
/// lines.
pub open spec fn conditional_docs(input: ParseInput, node: int) -> Seq<Doc>
    decreases input.tree.size() - node, 15int, 0int,
{
    if input.tree.child_count_of(node) < 5 || !contains_newline(
        input.bytes(),
        input.tree.start_of(node),
        input.tree.end_of(node),
    ) {
        children_docs(input, node)
    } else {
        let parts = grouped(force_break() + conditional_from(input, node, 0));
        if has_child_of_kind(*input.tree, node, GDScriptNodeKind::LineContinuation)
            || is_inside_parentheses(*input.tree, node) {
            parts
        } else {
            grouped(
                fixed("("@) + force_break() + soft_line() + indented(1, parts) + soft_line()
                    + fixed(")"@),
            )
        }
    }
}

/// Writes the parts of a conditional expression. Its keywords are unnamed
/// children among the others.
fn process_conditional_parts(input: &ParseInput, node: usize, writer: &mut ElementWriter)
    requires
        input.tree_fits(),
        input.tree.has(node as int),
        old(writer).wf(),
    ensures
        wrote(
            *old(writer),
            *final(writer),
            grouped(force_break() + conditional_from(*input, node as int, 0)),
        ),
    decreases input.tree.size() - node, 14int, 0int,
{
    let ghost total = conditional_from(*input, node as int, 0);
    let group = writer.begin_group();
    writer.push_force_break();
    let ghost inner = *writer;
    let count: usize = input.tree.child_count(node);
    let mut index: usize = 0;
    while index < count
        invariant
            index <= count == input.tree.child_count_of(node as int),
            input.tree_fits(),
            input.tree.has(node as int),
            is_writing(
                inner,
                *writer,
                conditional_from(*input, node as int, index as int),
                total,
            ),
        decreases count - index,
    {
        proof {
            input.tree.lemma_child(node as int, index as int);
        }
        if index > 0 {
            let name = input.tree.name(input.tree.child(node, index));
            let previous_kind = input.tree.child_kind(node, index - 1);
            if (same_text(name, "if") || same_text(name, "else")) && previous_kind
                != GDScriptNodeKind::LineContinuation && previous_kind
                != GDScriptNodeKind::Comment {
                writer.push_soft_line();
            } else {
                process_separator(input, node, GDScriptNodeKind::Condition, index, writer);
            }
        }
        process_continued(input, node, index, writer);
        index = index + 1;
    }
    writer.finish(group);
}

/// Writes a conditional expression.
pub fn process_conditional_expression(
    input: &ParseInput,
    node: usize,
    writer: &mut ElementWriter,
)
    requires
        input.tree_fits(),
        input.tree.has(node as int),
        old(writer).wf(),
    ensures
        wrote(*old(writer), *final(writer), conditional_docs(*input, node as int)),
    decreases input.tree.size() - node, 15int, 0int,
{
    proof {
        input.lemma_node(node as int);
    }
    if input.tree.child_count(node) < 5 || !has_newline(
        input.source,
        input.tree.start_byte(node),
        input.tree.end_byte(node),
    ) {
        process_children_with_spacing(input, node, writer);
        return ;
    }
    if has_child(input.tree, node, GDScriptNodeKind::LineContinuation)
        || is_inside_parenthesized_expression(input.tree, node) {
        process_conditional_parts(input, node, writer);
    } else {
        let group = writer.begin_group();
        writer.push_fixed("(");
        writer.push_force_break();
        writer.push_soft_line();
        let indent = writer.begin_indent(1);
        process_conditional_parts(input, node, writer);
        writer.finish(indent);
        writer.push_soft_line();
        writer.push_fixed(")");
        writer.finish(group);
    }
}

} // verus!
