//! Layouts do not depend on whether declarations are to be reordered, but for
//! their order.
use vstd::prelude::*;

use crate::formatter::bodies::{
    body_docs, body_from, body_gap_docs, definition_starts_or_ends, inline_comment_after,
    lambda_docs, lambda_from,
};
use crate::formatter::chains::{
    attribute_docs, chain_from, flat_arguments_docs, member_arguments_docs, member_docs,
    method_arguments_docs, method_name_docs,
};
use crate::formatter::containers::{
    after_comma_docs, after_elements_docs, container_contents, container_docs, element_docs,
    element_separator_docs, elements_from,
};
use crate::formatter::nodes::{
    below_docs, child_docs, children_docs, children_from, continued_docs, function_docs, node_docs,
    parenthesized_docs, run_docs, separated_docs, setget_docs,
};
use crate::formatter::operators::{
    binary_operator_docs, chain_has_comment, chain_segments, conditional_docs, conditional_from,
    conditional_separator_docs, operator_docs, segments_from, Segment,
};
use crate::formatter::queries::{
    all_annotations_are_inline, comment_leads_definition, first_child_of_kind,
    first_of_comment_block, is_inline_annotation, newlines_before_child, operator_of, operator_text,
};
use crate::formatter::regions::{covered_following, overlap, region_containing, Overlap};
use crate::formatter::separators::separator_docs;
use crate::formatter::source::{
    after_paragraph_docs, attached_end, attached_gap_docs, declaration_gap_docs, leading_block_docs,
    leading_block_start, leading_start, lemma_attached_end, lemma_leading_block_start,
    newlines_before_pending, paragraph_gap_docs, pending_annotations_are_inline, pending_docs,
    plain_gap_docs, source_docs, source_from, Pending,
};
use crate::node_kind::GDScriptNodeKind;
use crate::parser::ParseInput;
use crate::formatter::provenance::all_in_tree;

verus! {

/// True of inputs that are the same but for what they say about the order of
/// declarations.
pub open spec fn same_but_for_the_order(a: ParseInput, b: ParseInput) -> bool {
    &&& a.source == b.source
    &&& a.tree == b.tree
    &&& a.disabled_regions == b.disabled_regions
    &&& a.blank_lines_around_definitions == b.blank_lines_around_definitions
    &&& a.continuation_indent_level == b.continuation_indent_level
    &&& a.quote_style == b.quote_style
}

proof fn lemma_covered(a: ParseInput, b: ParseInput, node: int, index: int, end: int)
    requires
        same_but_for_the_order(a, b),
    ensures
        covered_following(a, node, index, end) == covered_following(b, node, index, end),
    decreases a.tree.child_count_of(node) - index,
{
    if index + 1 < a.tree.child_count_of(node) {
        lemma_covered(a, b, node, index + 1, end);
    }
}

/// How a child relates to the disabled regions does not depend on the order.
proof fn lemma_overlap(a: ParseInput, b: ParseInput, node: int, index: int)
    requires
        same_but_for_the_order(a, b),
    ensures
        overlap(a, node, index) == overlap(b, node, index),
{
    let child = a.tree.child_of(node, index);
    match region_containing(a.disabled_regions@, 0, a.tree.start_of(child)) {
        Some(region) => lemma_covered(a, b, node, index, region.end as int),
        None => {},
    }
}

proof fn lemma_annotation(a: ParseInput, b: ParseInput, annotation: int)
    requires
        same_but_for_the_order(a, b),
    ensures
        is_inline_annotation(a, annotation) == is_inline_annotation(b, annotation),
{
    let index = first_child_of_kind(
        *a.tree,
        annotation,
        0,
        a.tree.child_count_of(annotation),
        GDScriptNodeKind::Identifier,
    );
    if let Some(name) = index {
        let child = a.tree.child_of(annotation, name);
        assert(a.text_of(child) == b.text_of(child));
    }
}

proof fn lemma_annotations(a: ParseInput, b: ParseInput, annotations: int)
    requires
        same_but_for_the_order(a, b),
    ensures
        all_annotations_are_inline(a, annotations) == all_annotations_are_inline(b, annotations),
{
    assert forall|index: int|
        #![trigger a.tree.child_of(annotations, index)]
        is_inline_annotation(a, a.tree.child_of(annotations, index)) == is_inline_annotation(
            b,
            b.tree.child_of(annotations, index),
        ) by {
        lemma_annotation(a, b, a.tree.child_of(annotations, index));
    }
}

proof fn lemma_comment_leads(a: ParseInput, b: ParseInput, node: int, index: int)
    requires
        same_but_for_the_order(a, b),
    ensures
        comment_leads_definition(a, node, index) == comment_leads_definition(b, node, index),
    decreases a.tree.child_count_of(node) - index,
{
    if index + 1 < a.tree.child_count_of(node) {
        assert(newlines_before_child(a, node, index + 1) == newlines_before_child(
            b,
            node,
            index + 1,
        ));
        lemma_comment_leads(a, b, node, index + 1);
    }
}

proof fn lemma_first_of_block(a: ParseInput, b: ParseInput, node: int, index: int)
    requires
        same_but_for_the_order(a, b),
    ensures
        first_of_comment_block(a, node, index) == first_of_comment_block(b, node, index),
    decreases index,
{
    if index > 0 {
        assert(newlines_before_child(a, node, index) == newlines_before_child(b, node, index));
        lemma_first_of_block(a, b, node, index - 1);
    }
}

proof fn lemma_operator_text(a: ParseInput, b: ParseInput, node: int)
    requires
        same_but_for_the_order(a, b),
    ensures
        operator_text(a, node) == operator_text(b, node),
{
    if let Some(operator) = operator_of(*a.tree, node) {
        assert(a.text_of(operator) == b.text_of(operator));
    }
}

proof fn lemma_chain_segments(a: ParseInput, b: ParseInput, node: int, operator: Seq<u8>)
    requires
        same_but_for_the_order(a, b),
    ensures
        chain_segments(a, node, operator) == chain_segments(b, node, operator),
        chain_has_comment(a, node, operator) == chain_has_comment(b, node, operator),
    decreases a.tree.size() - node,
{
    if let Some(left) = a.tree.left_of(node) {
        lemma_operator_text(a, b, left as int);
        if node < left < a.tree.size() {
            lemma_chain_segments(a, b, left as int, operator);
        }
    }
}

proof fn lemma_leading(a: ParseInput, b: ParseInput, pending: Seq<Pending>, index: int)
    requires
        same_but_for_the_order(a, b),
    ensures
        leading_block_start(a, pending, index) == leading_block_start(b, pending, index),
    decreases index,
{
    if index > 0 {
        lemma_leading(a, b, pending, index - 1);
    }
}

proof fn lemma_pending_annotations(a: ParseInput, b: ParseInput, pending: Seq<Pending>)
    requires
        same_but_for_the_order(a, b),
    ensures
        pending_annotations_are_inline(a, pending) == pending_annotations_are_inline(b, pending),
{
    assert forall|i: int|
        #![trigger pending[i]]
        is_inline_annotation(a, pending[i].node) == is_inline_annotation(b, pending[i].node) by {
        lemma_annotation(a, b, pending[i].node);
    }
}

/// What stands between siblings does not depend on the order.
proof fn lemma_separator(
    a: ParseInput,
    b: ParseInput,
    parent: GDScriptNodeKind,
    previous: int,
    current: int,
)
    requires
        same_but_for_the_order(a, b),
    ensures
        separator_docs(a, parent, previous, current) == separator_docs(
            b,
            parent,
            previous,
            current,
        ),
{
    reveal(separator_docs);
    lemma_annotations(a, b, previous);
}

/// What stands between the children of a body does not depend on the order.
proof fn lemma_body_gap(
    a: ParseInput,
    b: ParseInput,
    node: int,
    index: int,
    follows_inline_comment: bool,
)
    requires
        same_but_for_the_order(a, b),
    ensures
        body_gap_docs(a, node, index, follows_inline_comment) == body_gap_docs(
            b,
            node,
            index,
            follows_inline_comment,
        ),
{
    reveal(body_gap_docs);
    lemma_comment_leads(a, b, node, index);
    lemma_first_of_block(a, b, node, index - 1);
    assert(newlines_before_child(a, node, index) == newlines_before_child(b, node, index));
    assert(definition_starts_or_ends(a, node, index) == definition_starts_or_ends(b, node, index));
}

/// The layout of a node does not depend on the order.
proof fn lemma_node(
    a: ParseInput,
    b: ParseInput,
    node: int,
)
    requires
        same_but_for_the_order(a, b),
        a.tree.is_linked(),
        a.tree.has(node),
    ensures
        node_docs(a, node) == node_docs(b, node),
    decreases a.tree.size() - node, 20int, 0int,
{
    assert(a.text_of(node) == b.text_of(node));
    if a.tree.child_count_of(node) > 0 {
        lemma_container(a, b, node);
        lemma_children(a, b, node, 0);
        lemma_body(a, b, node, false);
        lemma_lambda(a, b, node);
        lemma_function(a, b, node);
        lemma_setget(a, b, node);
        lemma_parenthesized(a, b, node);
        lemma_binary_operator(a, b, node);
        lemma_conditional(a, b, node);
        lemma_attribute(a, b, node);
        assert(children_docs(a, node) == children_from(a, node, 0));
        assert(children_docs(b, node) == children_from(b, node, 0));
    }
}

/// The layout of a node below another one does not depend on the order.
proof fn lemma_below(
    a: ParseInput,
    b: ParseInput,
    ancestor: int,
    node: int,
)
    requires
        same_but_for_the_order(a, b),
        a.tree.is_linked(),
        0 <= ancestor,
    ensures
        below_docs(a, ancestor, node) == below_docs(b, ancestor, node),
    decreases a.tree.size() - ancestor, 0int, 0int,
{
    if ancestor < node < a.tree.size() {
        lemma_node(a, b, node);
    }
}

/// The layout of a child does not depend on the order.
proof fn lemma_child(
    a: ParseInput,
    b: ParseInput,
    node: int,
    index: int,
)
    requires
        same_but_for_the_order(a, b),
        a.tree.is_linked(),
        a.tree.has(node),
    ensures
        child_docs(a, node, index) == child_docs(b, node, index),
    decreases a.tree.size() - node, 1int, 0int,
{
    lemma_below(a, b, node, a.tree.child_of(node, index));
    assert(child_docs(a, node, index) == below_docs(a, node, a.tree.child_of(node, index)));
    assert(child_docs(b, node, index) == below_docs(b, node, b.tree.child_of(node, index)));
}

proof fn lemma_separated(
    a: ParseInput,
    b: ParseInput,
    node: int,
    parent: GDScriptNodeKind,
    from: int,
    to: int,
)
    requires
        same_but_for_the_order(a, b),
        a.tree.is_linked(),
        a.tree.has(node),
    ensures
        separated_docs(a, node, parent, from, to) == separated_docs(b, node, parent, from, to),
    decreases a.tree.size() - node, 10int, to - from,
{
    if from < to {
        lemma_separator(
            a,
            b,
            parent,
            a.tree.child_of(node, from - 1),
            a.tree.child_of(node, from),
        );
        lemma_child(a, b, node, from);
        lemma_separated(a, b, node, parent, from + 1, to);
    }
}

proof fn lemma_run(
    a: ParseInput,
    b: ParseInput,
    node: int,
    parent: GDScriptNodeKind,
    from: int,
    to: int,
)
    requires
        same_but_for_the_order(a, b),
        a.tree.is_linked(),
        a.tree.has(node),
    ensures
        run_docs(a, node, parent, from, to) == run_docs(b, node, parent, from, to),
    decreases a.tree.size() - node, 11int, 0int,
{
    if from < to {
        lemma_child(a, b, node, from);
        lemma_separated(a, b, node, parent, from + 1, to);
    }
}

proof fn lemma_function(
    a: ParseInput,
    b: ParseInput,
    node: int,
)
    requires
        same_but_for_the_order(a, b),
        a.tree.is_linked(),
        a.tree.has(node),
    ensures
        function_docs(a, node) == function_docs(b, node),
    decreases a.tree.size() - node, 15int, 0int,
{
    let count = a.tree.child_count_of(node);
    let function = GDScriptNodeKind::Function;
    lemma_children(a, b, node, 0);
    assert(children_docs(a, node) == children_from(a, node, 0));
    assert(children_docs(b, node) == children_from(b, node, 0));
    lemma_run(a, b, node, function, 0, count);
    match first_child_of_kind(*a.tree, node, 0, count, GDScriptNodeKind::Body) {
        None => {},
        Some(body) => {
            lemma_run(a, b, node, function, 0, body);
            lemma_separator(
                a,
                b,
                function,
                a.tree.child_of(node, body - 1),
                a.tree.child_of(node, body),
            );
            lemma_child(a, b, node, body);
        },
    }
}

proof fn lemma_setget(
    a: ParseInput,
    b: ParseInput,
    node: int,
)
    requires
        same_but_for_the_order(a, b),
        a.tree.is_linked(),
        a.tree.has(node),
    ensures
        setget_docs(a, node) == setget_docs(b, node),
    decreases a.tree.size() - node, 15int, 0int,
{
    lemma_child(a, b, node, 0);
    lemma_run(a, b, node, GDScriptNodeKind::SetGet, 1, a.tree.child_count_of(node));
}

proof fn lemma_parenthesized(
    a: ParseInput,
    b: ParseInput,
    node: int,
)
    requires
        same_but_for_the_order(a, b),
        a.tree.is_linked(),
        a.tree.has(node),
    ensures
        parenthesized_docs(a, node) == parenthesized_docs(b, node),
    decreases a.tree.size() - node, 15int, 0int,
{
    let count = a.tree.child_count_of(node);
    lemma_children(a, b, node, 0);
    assert(children_docs(a, node) == children_from(a, node, 0));
    assert(children_docs(b, node) == children_from(b, node, 0));
    lemma_child(a, b, node, 0);
    lemma_child(a, b, node, 1);
    lemma_child(a, b, node, 2);
    lemma_child(a, b, node, count - 1);
    lemma_run(a, b, node, GDScriptNodeKind::ParenthesizedExpression, 1, count - 1);
}

proof fn lemma_continued(
    a: ParseInput,
    b: ParseInput,
    node: int,
    index: int,
)
    requires
        same_but_for_the_order(a, b),
        a.tree.is_linked(),
        a.tree.has(node),
        0 <= index < a.tree.child_count_of(node),
    ensures
        continued_docs(a, node, index) == continued_docs(b, node, index),
    decreases a.tree.size() - node, 2int, 0int,
{
    lemma_child(a, b, node, index);
    a.tree.lemma_child(node, index);
}

proof fn lemma_children(
    a: ParseInput,
    b: ParseInput,
    node: int,
    index: int,
)
    requires
        same_but_for_the_order(a, b),
        a.tree.is_linked(),
        a.tree.has(node),
        0 <= index,
    ensures
        children_from(a, node, index) == children_from(b, node, index),
    decreases a.tree.size() - node, 10int, a.tree.children_left(node, index),
{
    if index < a.tree.child_count_of(node) {
        lemma_separator(
            a,
            b,
            a.tree.kind_of(node),
            a.tree.child_of(node, index - 1),
            a.tree.child_of(node, index),
        );
        lemma_child(a, b, node, index);
        lemma_continued(a, b, node, index);
        lemma_overlap(a, b, node, index);
        match overlap(a, node, index) {
            Overlap::Covered { region, following } => {
                lemma_children(a, b, node, index + following + 1);
            },
            _ => {
                lemma_children(a, b, node, index + 1);
            },
        }
    }
}

proof fn lemma_body_from(
    a: ParseInput,
    b: ParseInput,
    node: int,
    index: int,
    follows_inline_comment: bool,
    adds_comma: bool,
)
    requires
        same_but_for_the_order(a, b),
        a.tree.is_linked(),
        a.tree.has(node),
        0 <= index,
    ensures
        body_from(a, node, index, follows_inline_comment, adds_comma) == body_from(
            b,
            node,
            index,
            follows_inline_comment,
            adds_comma,
        ),
    decreases a.tree.size() - node, 10int, a.tree.children_left(node, index),
{
    if index < a.tree.child_count_of(node) {
        lemma_child(a, b, node, index);
        lemma_body_gap(a, b, node, index, follows_inline_comment);
        lemma_overlap(a, b, node, index);
        match overlap(a, node, index) {
            Overlap::Covered { region, following } => {
                lemma_body_from(a, b, node, index + following + 1, false, adds_comma);
            },
            Overlap::Partial => {
                lemma_body_from(a, b, node, index + 1, false, adds_comma);
            },
            Overlap::Clear => {
                lemma_body_from(a, b, node, index + 1, follows_inline_comment, adds_comma);
                lemma_body_from(
                    a,
                    b,
                    node,
                    index + 1,
                    inline_comment_after(a, node, index, follows_inline_comment),
                    adds_comma,
                );
            },
        }
    }
}

proof fn lemma_body(
    a: ParseInput,
    b: ParseInput,
    node: int,
    adds_comma: bool,
)
    requires
        same_but_for_the_order(a, b),
        a.tree.is_linked(),
        a.tree.has(node),
    ensures
        body_docs(a, node, adds_comma) == body_docs(b, node, adds_comma),
    decreases a.tree.size() - node, 15int, 0int,
{
    lemma_body_from(a, b, node, 0, false, adds_comma);
}

proof fn lemma_lambda_from(
    a: ParseInput,
    b: ParseInput,
    node: int,
    index: int,
)
    requires
        same_but_for_the_order(a, b),
        a.tree.is_linked(),
        a.tree.has(node),
        0 <= index,
    ensures
        lambda_from(a, node, index) == lambda_from(b, node, index),
    decreases a.tree.size() - node, 10int, a.tree.children_left(node, index),
{
    if index < a.tree.child_count_of(node) {
        a.tree.lemma_child(node, index);
        lemma_body(a, b, a.tree.child_of(node, index), true);
        lemma_child(a, b, node, index);
        lemma_lambda_from(a, b, node, index + 1);
    }
}

proof fn lemma_lambda(
    a: ParseInput,
    b: ParseInput,
    node: int,
)
    requires
        same_but_for_the_order(a, b),
        a.tree.is_linked(),
        a.tree.has(node),
    ensures
        lambda_docs(a, node) == lambda_docs(b, node),
    decreases a.tree.size() - node, 15int, 0int,
{
    lemma_lambda_from(a, b, node, 0);
}

proof fn lemma_element(
    a: ParseInput,
    b: ParseInput,
    node: int,
    index: int,
)
    requires
        same_but_for_the_order(a, b),
        a.tree.is_linked(),
        a.tree.has(node),
    ensures
        element_docs(a, node, index) == element_docs(b, node, index),
    decreases a.tree.size() - node, 2int, 0int,
{
    lemma_separator(
        a,
        b,
        a.tree.kind_of(node),
        a.tree.child_of(node, index - 1),
        a.tree.child_of(node, index),
    );
    lemma_child(a, b, node, index);
    assert(element_separator_docs(a, node, index) == element_separator_docs(b, node, index));
    assert(after_comma_docs(a, node, index) == after_comma_docs(b, node, index));
}

proof fn lemma_elements(
    a: ParseInput,
    b: ParseInput,
    node: int,
    index: int,
)
    requires
        same_but_for_the_order(a, b),
        a.tree.is_linked(),
        a.tree.has(node),
        0 <= index,
    ensures
        elements_from(a, node, index) == elements_from(b, node, index),
    decreases a.tree.size() - node, 10int, a.tree.children_left(node, index),
{
    if index < a.tree.child_count_of(node) - 1 {
        lemma_element(a, b, node, index);
        lemma_elements(a, b, node, index + 1);
    }
}

proof fn lemma_container(
    a: ParseInput,
    b: ParseInput,
    node: int,
)
    requires
        same_but_for_the_order(a, b),
        a.tree.is_linked(),
        a.tree.has(node),
    ensures
        container_docs(a, node) == container_docs(b, node),
    decreases a.tree.size() - node, 15int, 0int,
{
    reveal(after_elements_docs);
    lemma_child(a, b, node, 0);
    lemma_child(a, b, node, 1);
    lemma_child(a, b, node, a.tree.child_count_of(node) - 1);
    lemma_elements(a, b, node, 1);
    assert(after_elements_docs(a, node) == after_elements_docs(b, node));
    assert(container_contents(a, node) == container_contents(b, node));
}

proof fn lemma_operator(
    a: ParseInput,
    b: ParseInput,
    ancestor: int,
    node: int,
    index: int,
    has_part: bool,
)
    requires
        same_but_for_the_order(a, b),
        a.tree.is_linked(),
        0 <= ancestor,
    ensures
        operator_docs(a, ancestor, node, index, has_part) == operator_docs(
            b,
            ancestor,
            node,
            index,
            has_part,
        ),
    decreases a.tree.size() - ancestor, 8int, a.tree.child_count_of(node) - index,
{
    if index < a.tree.child_count_of(node) {
        lemma_below(a, b, ancestor, a.tree.child_of(node, index));
        lemma_operator(a, b, ancestor, node, index + 1, true);
        lemma_operator(a, b, ancestor, node, index + 1, has_part);
    }
}

proof fn lemma_segments(
    a: ParseInput,
    b: ParseInput,
    node: int,
    segments: Seq<Segment>,
    index: int,
    has_comment: bool,
)
    requires
        same_but_for_the_order(a, b),
        a.tree.is_linked(),
        a.tree.has(node),
        0 <= index,
    ensures
        segments_from(a, node, segments, index, has_comment) == segments_from(
            b,
            node,
            segments,
            index,
            has_comment,
        ),
    decreases a.tree.size() - node, 10int, segments.len() - index,
{
    if index < segments.len() {
        let segment = segments[index];
        match segment.operated_by {
            Some(operated_by) => {
                lemma_operator(a, b, node, operated_by, 0, false);
            },
            None => {},
        }
        lemma_below(a, b, node, segment.expression);
        lemma_segments(a, b, node, segments, index + 1, has_comment);
    }
}

proof fn lemma_binary_operator(
    a: ParseInput,
    b: ParseInput,
    node: int,
)
    requires
        same_but_for_the_order(a, b),
        a.tree.is_linked(),
        a.tree.has(node),
    ensures
        binary_operator_docs(a, node) == binary_operator_docs(b, node),
    decreases a.tree.size() - node, 15int, 0int,
{
    let operator = operator_text(a, node);
    lemma_operator_text(a, b, node);
    lemma_chain_segments(a, b, node, operator);
    lemma_children(a, b, node, 0);
    assert(children_docs(a, node) == children_from(a, node, 0));
    assert(children_docs(b, node) == children_from(b, node, 0));
    lemma_segments(
        a,
        b,
        node,
        chain_segments(a, node, operator),
        0,
        chain_has_comment(a, node, operator),
    );
}

proof fn lemma_conditional_from(
    a: ParseInput,
    b: ParseInput,
    node: int,
    index: int,
)
    requires
        same_but_for_the_order(a, b),
        a.tree.is_linked(),
        a.tree.has(node),
        0 <= index,
    ensures
        conditional_from(a, node, index) == conditional_from(b, node, index),
    decreases a.tree.size() - node, 10int, a.tree.children_left(node, index),
{
    if index < a.tree.child_count_of(node) {
        lemma_separator(
            a,
            b,
            GDScriptNodeKind::Condition,
            a.tree.child_of(node, index - 1),
            a.tree.child_of(node, index),
        );
        assert(conditional_separator_docs(a, node, index) == conditional_separator_docs(
            b,
            node,
            index,
        ));
        lemma_continued(a, b, node, index);
        lemma_conditional_from(a, b, node, index + 1);
    }
}

proof fn lemma_conditional(
    a: ParseInput,
    b: ParseInput,
    node: int,
)
    requires
        same_but_for_the_order(a, b),
        a.tree.is_linked(),
        a.tree.has(node),
    ensures
        conditional_docs(a, node) == conditional_docs(b, node),
    decreases a.tree.size() - node, 15int, 0int,
{
    lemma_children(a, b, node, 0);
    assert(children_docs(a, node) == children_from(a, node, 0));
    assert(children_docs(b, node) == children_from(b, node, 0));
    lemma_conditional_from(a, b, node, 0);
}

proof fn lemma_flat_arguments(
    a: ParseInput,
    b: ParseInput,
    arguments: int,
)
    requires
        same_but_for_the_order(a, b),
        a.tree.is_linked(),
        a.tree.has(arguments),
    ensures
        flat_arguments_docs(a, arguments) == flat_arguments_docs(b, arguments),
    decreases a.tree.size() - arguments, 15int, 0int,
{
    let count = a.tree.child_count_of(arguments);
    let kind = a.tree.kind_of(arguments);
    let close = a.tree.child_of(arguments, count - 1);
    lemma_child(a, b, arguments, 0);
    lemma_child(a, b, arguments, count - 1);
    lemma_separated(a, b, arguments, kind, 1, count - 1);
    lemma_separated(a, b, arguments, kind, 1, count - 2);
    lemma_separator(a, b, kind, a.tree.child_of(arguments, count - 2), close);
    lemma_separator(a, b, kind, a.tree.child_of(arguments, count - 3), close);
}

proof fn lemma_method_arguments(
    a: ParseInput,
    b: ParseInput,
    call: int,
    is_last: bool,
)
    requires
        same_but_for_the_order(a, b),
        a.tree.is_linked(),
        a.tree.has(call),
    ensures
        method_arguments_docs(a, call, is_last) == method_arguments_docs(b, call, is_last),
    decreases a.tree.size() - call, 2int, 0int,
{
    let arguments = a.tree.child_of(call, 1);
    if call < arguments < a.tree.size() {
        lemma_node(a, b, arguments);
        lemma_flat_arguments(a, b, arguments);
    }
}

proof fn lemma_member(
    a: ParseInput,
    b: ParseInput,
    node: int,
    index: int,
)
    requires
        same_but_for_the_order(a, b),
        a.tree.is_linked(),
        a.tree.has(node),
    ensures
        member_docs(a, node, index) == member_docs(b, node, index),
        member_arguments_docs(a, node, index) == member_arguments_docs(b, node, index),
    decreases a.tree.size() - node, 3int, 0int,
{
    let child = a.tree.child_of(node, index);
    lemma_child(a, b, node, index);
    if node < child < a.tree.size() {
        lemma_child(a, b, child, 0);
        assert(method_name_docs(a, child) == method_name_docs(b, child));
        lemma_method_arguments(a, b, child, index + 1 >= a.tree.child_count_of(node));
    }
}

proof fn lemma_chain(
    a: ParseInput,
    b: ParseInput,
    node: int,
    index: int,
    is_implicit: bool,
    is_explicit: bool,
)
    requires
        same_but_for_the_order(a, b),
        a.tree.is_linked(),
        a.tree.has(node),
        0 <= index,
    ensures
        chain_from(a, node, index, is_implicit, is_explicit) == chain_from(
            b,
            node,
            index,
            is_implicit,
            is_explicit,
        ),
    decreases a.tree.size() - node, 10int, a.tree.children_left(node, index),
{
    if index < a.tree.child_count_of(node) {
        lemma_child(a, b, node, index);
        lemma_child(a, b, node, index + 1);
        lemma_member(a, b, node, index + 1);
        lemma_member(a, b, node, index + 2);
        lemma_chain(a, b, node, index + 2, is_implicit, is_explicit);
        lemma_chain(a, b, node, index + 3, is_implicit, is_explicit);
    }
}

proof fn lemma_attribute(
    a: ParseInput,
    b: ParseInput,
    node: int,
)
    requires
        same_but_for_the_order(a, b),
        a.tree.is_linked(),
        a.tree.has(node),
    ensures
        attribute_docs(a, node) == attribute_docs(b, node),
    decreases a.tree.size() - node, 15int, 0int,
{
    lemma_children(a, b, node, 0);
    assert(children_docs(a, node) == children_from(a, node, 0));
    assert(children_docs(b, node) == children_from(b, node, 0));
    lemma_child(a, b, node, 0);
    lemma_chain(a, b, node, 1, true, true);
    lemma_chain(a, b, node, 1, true, false);
    lemma_chain(a, b, node, 1, false, true);
    lemma_chain(a, b, node, 1, false, false);
}

proof fn lemma_pending(
    a: ParseInput,
    b: ParseInput,
    pending: Seq<Pending>,
    from: int,
    to: int,
    separates_first: bool,
)
    requires
        same_but_for_the_order(a, b),
        a.tree.is_linked(),
        all_in_tree(a, pending),
        0 <= from,
        to <= pending.len(),
    ensures
        pending_docs(a, pending, from, to, separates_first) == pending_docs(
            b,
            pending,
            from,
            to,
            separates_first,
        ),
    decreases to - from,
{
    if from < to {
        assert(a.tree.has(pending[from].node));
        lemma_node(a, b, pending[from].node);
        lemma_pending(a, b, pending, from + 1, to, true);
    }
}

proof fn lemma_declaration_gap(
    a: ParseInput,
    b: ParseInput,
    pending: Seq<Pending>,
    previous: Option<int>,
    declaration: int,
)
    requires
        same_but_for_the_order(a, b),
        a.tree.is_linked(),
        all_in_tree(a, pending),
    ensures
        declaration_gap_docs(a, pending, previous, declaration) == declaration_gap_docs(
            b,
            pending,
            previous,
            declaration,
        ),
{
    reveal(declaration_gap_docs);
    reveal(plain_gap_docs);
    let count = pending.len() as int;
    let leading = leading_start(a, pending, previous, declaration);
    let attached = attached_end(pending, 0, leading, previous is Some);
    lemma_leading_block_start(a, pending, count);
    lemma_leading(a, b, pending, count);
    lemma_pending_annotations(a, b, pending);
    lemma_attached_end(pending, 0, leading, previous is Some);
    lemma_pending(a, b, pending, 0, attached, previous is Some);
    lemma_pending(a, b, pending, attached, leading, false);
    lemma_pending(a, b, pending, leading, count, false);
    assert(attached_gap_docs(a, pending, previous, declaration) == attached_gap_docs(
        b,
        pending,
        previous,
        declaration,
    ));
    assert(leading_block_docs(a, pending, previous, declaration, false) == leading_block_docs(
        b,
        pending,
        previous,
        declaration,
        false,
    ));
    assert(leading_block_docs(a, pending, previous, declaration, true) == leading_block_docs(
        b,
        pending,
        previous,
        declaration,
        true,
    ));
    assert(paragraph_gap_docs(a, pending, previous, declaration, attached) == paragraph_gap_docs(
        b,
        pending,
        previous,
        declaration,
        attached,
    ));
    assert(after_paragraph_docs(a, pending, previous, declaration) == after_paragraph_docs(
        b,
        pending,
        previous,
        declaration,
    ));
}

proof fn lemma_source_from(
    a: ParseInput,
    b: ParseInput,
    index: int,
    previous: Option<int>,
    pending: Seq<Pending>,
)
    requires
        same_but_for_the_order(a, b),
        a.tree.is_linked(),
        all_in_tree(a, pending),
        0 <= index,
    ensures
        source_from(a, index, previous, pending) == source_from(b, index, previous, pending),
    decreases a.tree.children_left(0, index),
{
    reveal(source_from);
    if index >= a.tree.child_count_of(0) {
        lemma_pending(a, b, pending, 0, pending.len() as int, previous is Some);
    } else {
        let child = a.tree.child_of(0, index);
        a.tree.lemma_child(0, index);
        lemma_node(a, b, child);
        lemma_declaration_gap(a, b, pending, previous, child);
        lemma_overlap(a, b, 0, index);
        match overlap(a, 0, index) {
            Overlap::Covered { region, following } => {
                let last = Some(a.tree.child_of(0, index + following));
                lemma_source_from(a, b, index + following + 1, last, Seq::empty());
                lemma_source_from(a, b, index + following + 1, last, pending);
            },
            _ => {
                let waiting = pending.push(
                    Pending {
                        node: child,
                        newlines: newlines_before_pending(a, pending, previous, child),
                    },
                );
                assert forall|i: int| 0 <= i < waiting.len() implies a.tree.has(
                    (#[trigger] waiting[i]).node,
                ) by {
                    if i < pending.len() {
                        assert(waiting[i] == pending[i]);
                    }
                }
                lemma_source_from(a, b, index + 1, Some(child), pending);
                lemma_source_from(a, b, index + 1, Some(child), Seq::empty());
                lemma_source_from(a, b, index + 1, previous, waiting);
            },
        }
    }
}

/// Where formatting is disabled somewhere, the layout of a script is the same
/// whether reordering is asked for or not.
pub proof fn disabled_regions_leave_out_reordering(a: ParseInput, b: ParseInput)
    requires
        same_but_for_the_order(a, b),
        a.wf(),
        a.disabled_regions@.len() > 0,
    ensures
        source_docs(a) == source_docs(b),
{
    lemma_source_from(a, b, 0, None, Seq::empty());
}

} // verus!
