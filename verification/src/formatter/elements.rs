//! How containers are laid out.
use vstd::prelude::*;

use crate::document::{
    blank_line, fixed, force_break, group_concat, grouped, hard_line, if_multiline, indented,
    nothing, soft_line, space, space_single_line_only, Doc,
};
use crate::formatter::containers::{
    after_comma_docs, after_elements_docs, container_contents, container_docs, element_docs,
    element_separator_docs, elements_from, inserts_comma_before, is_trailing_comma, trailing_comma,
};
use crate::formatter::expressions::has_none;
use crate::formatter::nodes::{child_docs, node_docs};
use crate::formatter::queries::{
    any_child_contains_lambda, contains_lambda, first_child_of_kind,
    first_child_of_kind_is_the_first, lambda_ends_with_comment, parent_is,
};
use crate::formatter::rows::{in_a_row, lemma_row, lemma_row_inside};
use crate::formatter::spacing::{is_part_gap, separators_keep_words_apart};
use crate::formatter::statements::newlines_after;
use crate::node_kind::GDScriptNodeKind;
use crate::parser::ParseInput;

verus! {

broadcast use group_concat;

/// True of arrays, dictionaries, enums, arguments, and parameters.
pub open spec fn is_container_kind(kind: GDScriptNodeKind) -> bool {
    matches!(
        kind,
        GDScriptNodeKind::Array
            | GDScriptNodeKind::Dictionary
            | GDScriptNodeKind::EnumeratorList
            | GDScriptNodeKind::Parameters
            | GDScriptNodeKind::Arguments
    )
}

/// What stands inside of the delimiters of a container on one line: a space for
/// braces, and nothing for others.
pub open spec fn padding_docs(kind: GDScriptNodeKind) -> Seq<Doc> {
    if kind == GDScriptNodeKind::Dictionary || kind == GDScriptNodeKind::EnumeratorList {
        space_single_line_only()
    } else {
        nothing()
    }
}

/// A container around what stands between its delimiters: the opening delimiter,
/// a possible line break, the contents one level further to the right, another
/// one, which is no choice where a comment stands in the container, and the
/// closing delimiter.
pub open spec fn wrapped_docs(input: ParseInput, node: int, inner: Seq<Doc>) -> Seq<Doc> {
    let kind = input.tree.kind_of(node);
    let count = input.tree.child_count_of(node);
    let has_comment = exists|index: int|
        #![trigger input.tree.child_of(node, index)]
        1 <= index < count - 1 && input.tree.child_kind_of(node, index)
            == GDScriptNodeKind::Comment;
    child_docs(input, node, 0) + padding_docs(kind) + soft_line() + indented(1, inner) + (
    if has_comment {
        hard_line()
    } else {
        soft_line()
    }) + padding_docs(kind) + child_docs(input, node, count - 1)
}

/// The empty line between a child of a container and the next one, where there is
/// one in the source, but not in front of a comment.
pub open spec fn kept_blank_docs(input: ParseInput, node: int, index: int) -> Seq<Doc> {
    if input.tree.child_kind_of(node, index + 1) != GDScriptNodeKind::Comment && newlines_after(
        input,
        node,
        index,
    ) > 1 {
        blank_line()
    } else {
        nothing()
    }
}

/// What may stand between a child of a container, which is not its opening
/// delimiter, and the next one, which is neither its trailing comma nor its
/// closing delimiter:
///
/// - behind a comma, a possible line break, or a space where none is needed, but
///   in front of a comment a line break or a space;
/// - a line break behind a comment;
/// - in front of a comment at the end, behind an element without a comma, a comma
///   where the container breaks, and a space;
/// - between others, what may stand between parts;
/// - and an empty line where there is one in the source, but not in front of a
///   comment.
pub open spec fn is_element_gap(input: ParseInput, node: int, index: int, gap: Seq<Doc>) -> bool {
    let first = input.tree.child_kind_of(node, index);
    let second = input.tree.child_kind_of(node, index + 1);
    let count = input.tree.child_count_of(node);
    let blank = kept_blank_docs(input, node, index);
    if first == GDScriptNodeKind::TokenComma {
        if second == GDScriptNodeKind::Comment {
            gap == if exists|offset: int|
                input.tree.end_of(input.tree.child_of(node, index)) <= offset
                    < input.tree.start_of(input.tree.child_of(node, index + 1))
                    && #[trigger] input.bytes()[offset] == 10u8 {
                hard_line()
            } else {
                space()
            }
        } else {
            gap == soft_line() + space_single_line_only() + blank
        }
    } else if first == GDScriptNodeKind::Comment {
        gap == hard_line() + blank
    } else if second == GDScriptNodeKind::Comment && index + 1 == count - 2 {
        gap == if_multiline(fixed(","@)) + space()
    } else {
        exists|between: Seq<Doc>|
            gap == between + blank && #[trigger] is_part_gap(
                input,
                input.tree.kind_of(node),
                input.tree.child_of(node, index),
                input.tree.child_of(node, index + 1),
                between,
            )
    }
}

/// What stands in front of a child of a container.
spec fn front_docs(input: ParseInput, node: int, index: int) -> Seq<Doc> {
    (if inserts_comma_before(input, node, index) {
        trailing_comma() + space()
    } else {
        nothing()
    }) + element_separator_docs(input, node, index) + (if index > 1 && input.tree.child_kind_of(
        node,
        index,
    ) != GDScriptNodeKind::Comment && newlines_after(input, node, index - 1) > 1 {
        blank_line()
    } else {
        nothing()
    })
}

/// A child of a container with what stands around it.
proof fn lemma_element(input: ParseInput, node: int, index: int)
    ensures
        element_docs(input, node, index) == front_docs(input, node, index) + child_docs(
            input,
            node,
            index,
        ) + after_comma_docs(input, node, index),
{
    assert(index - 1 + 1 == index);
}

/// What stands between two children of a container.
proof fn lemma_element_gap(input: ParseInput, node: int, index: int)
    requires
        input.tree.kind_of(node) != GDScriptNodeKind::InferredType,
        1 <= index,
        index + 1 < input.tree.child_count_of(node) - 1,
    ensures
        is_element_gap(
            input,
            node,
            index,
            after_comma_docs(input, node, index) + front_docs(input, node, index + 1),
        ),
{
    let first = input.tree.child_kind_of(node, index);
    let second = input.tree.child_kind_of(node, index + 1);
    let gap = after_comma_docs(input, node, index) + front_docs(input, node, index + 1);
    let blank = kept_blank_docs(input, node, index);
    let between = element_separator_docs(input, node, index + 1);
    assert(index + 1 - 1 == index);
    if first == GDScriptNodeKind::TokenComma {
        assert(gap =~= after_comma_docs(input, node, index) + blank);
    } else if first == GDScriptNodeKind::Comment {
        assert(gap =~= hard_line() + blank);
    } else if second == GDScriptNodeKind::Comment && index + 1 == input.tree.child_count_of(node)
        - 2 {
        assert(gap =~= if_multiline(fixed(","@)) + space());
    } else {
        separators_keep_words_apart(
            input,
            input.tree.kind_of(node),
            input.tree.child_of(node, index),
            input.tree.child_of(node, index + 1),
        );
        assert(gap =~= between + blank);
    }
}

/// From a child on, the children of a container follow each other.
proof fn lemma_elements_row(input: ParseInput, node: int, from: int, index: int) -> (gap: Seq<Doc>)
    requires
        input.tree.kind_of(node) != GDScriptNodeKind::InferredType,
        1 <= from <= index,
        index + 1 < input.tree.child_count_of(node) - 1,
        index + 1 < input.tree.child_count_of(node) - 2 || input.tree.child_kind_of(node, index + 1)
            != GDScriptNodeKind::TokenComma,
    ensures
        is_element_gap(input, node, index, gap),
        in_a_row(
            elements_from(input, node, from),
            child_docs(input, node, index),
            gap,
            child_docs(input, node, index + 1),
        ),
    decreases index - from,
{
    let front = front_docs(input, node, from);
    let first = child_docs(input, node, from);
    let after = after_comma_docs(input, node, from);
    let rest = elements_from(input, node, from + 1);
    lemma_element(input, node, from);
    assert(elements_from(input, node, from) == front + first + after + rest);
    if from == index {
        let gap = after + front_docs(input, node, index + 1);
        let second = child_docs(input, node, index + 1);
        let behind = after_comma_docs(input, node, index + 1) + elements_from(
            input,
            node,
            index + 2,
        );
        lemma_element(input, node, index + 1);
        lemma_element_gap(input, node, index);
        assert(rest == front_docs(input, node, index + 1) + second + behind);
        assert(front + first + after + rest =~= front + first + gap + second + behind);
        lemma_row(front, first, gap, second, behind);
        gap
    } else {
        let gap = lemma_elements_row(input, node, from + 1, index);
        lemma_row_inside(
            front + first + after,
            rest,
            nothing(),
            child_docs(input, node, index),
            gap,
            child_docs(input, node, index + 1),
        );
        assert(front + first + after + rest =~= front + first + after + rest + nothing());
        gap
    }
}

/// A container is laid out between its delimiters.
proof fn lemma_wrapped(input: ParseInput, node: int)
    requires
        input.tree.child_count_of(node) >= 3,
    ensures
        container_contents(input, node) == wrapped_docs(
            input,
            node,
            elements_from(input, node, 1) + after_elements_docs(input, node),
        ),
{
    let count = input.tree.child_count_of(node);
    let comment = GDScriptNodeKind::Comment;
    first_child_of_kind_is_the_first(*input.tree, node, 1, count - 1, comment);
    match first_child_of_kind(*input.tree, node, 1, count - 1, comment) {
        Some(index) => {
            assert(input.tree.child_of(node, index) == input.tree.child_of(node, index));
        },
        None => {},
    }
}

/// A container that is not empty breaks inside of its delimiters, as a whole, and
/// its contents follow each other with what may stand between them. The
/// parameters of a function are a part of its header and break with it.
pub proof fn containers_break_inside(input: ParseInput, node: int, index: int)
    requires
        is_container_kind(input.tree.kind_of(node)),
        input.tree.child_count_of(node) >= 3,
        1 <= index,
        index == 1 || index + 1 < input.tree.child_count_of(node) - 1,
    ensures
        exists|inner: Seq<Doc>|
            #![trigger wrapped_docs(input, node, inner)]
            {
                &&& node_docs(input, node) == if input.tree.kind_of(node)
                    == GDScriptNodeKind::Parameters && parent_is(
                    *input.tree,
                    node,
                    GDScriptNodeKind::Function,
                ) {
                    wrapped_docs(input, node, inner)
                } else {
                    grouped(wrapped_docs(input, node, inner))
                }
                &&& index + 1 < input.tree.child_count_of(node) - 1 && (index + 1
                    < input.tree.child_count_of(node) - 2 || input.tree.child_kind_of(
                    node,
                    index + 1,
                ) != GDScriptNodeKind::TokenComma) ==> exists|gap: Seq<Doc>|
                    is_element_gap(input, node, index, gap) && #[trigger] in_a_row(
                        inner,
                        child_docs(input, node, index),
                        gap,
                        child_docs(input, node, index + 1),
                    )
            },
{
    let count = input.tree.child_count_of(node);
    let elements = elements_from(input, node, 1);
    let tail = after_elements_docs(input, node);
    let inner = elements + tail;
    lemma_wrapped(input, node);
    assert(node_docs(input, node) == container_docs(input, node));
    if index + 1 < count - 1 && (index + 1 < count - 2 || input.tree.child_kind_of(node, index + 1)
        != GDScriptNodeKind::TokenComma) {
        let gap = lemma_elements_row(input, node, 1, index);
        lemma_row_inside(
            nothing(),
            elements,
            tail,
            child_docs(input, node, index),
            gap,
            child_docs(input, node, index + 1),
        );
        assert(nothing() + elements + tail =~= inner);
    }
    assert(wrapped_docs(input, node, inner) == container_contents(input, node));
}

/// An empty container stays on one line, with a space between braces.
pub proof fn empty_containers_stay_on_their_line(input: ParseInput, node: int)
    requires
        is_container_kind(input.tree.kind_of(node)),
        input.tree.child_count_of(node) == 2,
    ensures
        node_docs(input, node) == child_docs(input, node, 0) + (if input.tree.kind_of(node)
            == GDScriptNodeKind::Dictionary || input.tree.kind_of(node)
            == GDScriptNodeKind::EnumeratorList {
            space()
        } else {
            nothing()
        }) + child_docs(input, node, 1),
{
    assert(node_docs(input, node) == container_docs(input, node));
}

/// The index of the last child of a container in front of its closing delimiter
/// and its trailing comma.
pub open spec fn last_element(input: ParseInput, node: int) -> int {
    let count = input.tree.child_count_of(node);
    if input.tree.child_kind_of(node, count - 2) == GDScriptNodeKind::TokenComma {
        count - 3
    } else {
        count - 2
    }
}

/// What stands behind the last element of a container: a comma where it breaks,
/// if it has two or more elements, and, for enums, what makes it break.
pub open spec fn end_docs(input: ParseInput, node: int) -> Seq<Doc> {
    let is_enum = input.tree.kind_of(node) == GDScriptNodeKind::EnumeratorList;
    (if input.tree.child_count_of(node) >= 4 {
        if_multiline(fixed(","@))
    } else if is_enum {
        fixed(","@)
    } else {
        nothing()
    }) + (if is_enum {
        force_break()
    } else {
        nothing()
    })
}

/// The last element of a container, and what stands behind it: without comments
/// and lambdas, a comma where the container breaks if it has two or more
/// elements, and nothing for a single one. Enums always break, and have a comma
/// behind a single member, too.
pub proof fn containers_end_with_a_comma_where_they_break(input: ParseInput, node: int)
    requires
        is_container_kind(input.tree.kind_of(node)),
        input.tree.child_count_of(node) >= 3,
        has_none(*input.tree, node, GDScriptNodeKind::Comment),
        !any_child_contains_lambda(*input.tree, node, 1, input.tree.child_count_of(node) - 1),
    ensures
        ({
            let last = last_element(input, node);
            last >= 1 && input.tree.child_kind_of(node, last) != GDScriptNodeKind::TokenComma
                ==> exists|front: Seq<Doc>|
                container_contents(input, node) == wrapped_docs(
                    input,
                    node,
                    #[trigger] (front + child_docs(input, node, last) + end_docs(input, node)),
                )
        }),
{
    reveal(after_elements_docs);
    let count = input.tree.child_count_of(node);
    let last = last_element(input, node);
    let end = end_docs(input, node);
    lemma_wrapped(input, node);
    assert(input.tree.child_of(node, count - 2) == input.tree.child_of(node, count - 2));
    assert(input.tree.child_of(node, 1) == input.tree.child_of(node, 1));
    if last >= 1 && input.tree.child_kind_of(node, last) != GDScriptNodeKind::TokenComma {
        assert(input.tree.child_of(node, last) == input.tree.child_of(node, last));
        let front = lemma_last_element(input, node, 1, last);
        if count == 3 {
            lemma_no_lambda(input, node);
        }
        assert(after_elements_docs(input, node) =~= end);
        assert(elements_from(input, node, 1) + after_elements_docs(input, node) =~= front
            + child_docs(input, node, last) + end);
    }
}

/// Where no child contains a lambda, none is one.
proof fn lemma_no_lambda(input: ParseInput, node: int)
    requires
        input.tree.child_count_of(node) == 3,
        !any_child_contains_lambda(*input.tree, node, 1, 2),
    ensures
        input.tree.child_kind_of(node, 1) != GDScriptNodeKind::Lambda,
{
    assert(input.tree.child_of(node, 1) == input.tree.child_of(node, 1));
}

/// The last element comes last.
proof fn lemma_last_element(input: ParseInput, node: int, from: int, last: int) -> (front: Seq<Doc>)
    requires
        1 <= from <= last < input.tree.child_count_of(node) - 1,
        last == input.tree.child_count_of(node) - 2 || last == input.tree.child_count_of(node) - 3
            && input.tree.child_kind_of(node, last + 1) == GDScriptNodeKind::TokenComma,
        input.tree.child_kind_of(node, last) != GDScriptNodeKind::TokenComma,
    ensures
        elements_from(input, node, from) == front + child_docs(input, node, last),
    decreases last - from,
{
    lemma_element(input, node, from);
    if from == last {
        assert(elements_from(input, node, last + 1) == nothing());
        assert(after_comma_docs(input, node, last) == nothing());
        assert(elements_from(input, node, from) =~= front_docs(input, node, from) + child_docs(
            input,
            node,
            last,
        ));
        front_docs(input, node, from)
    } else {
        let rest = lemma_last_element(input, node, from + 1, last);
        let front = element_docs(input, node, from) + rest;
        assert(!is_trailing_comma(input, node, from));
        assert(elements_from(input, node, from) =~= front + child_docs(input, node, last));
        front
    }
}

/// A lambda that is all that stands in an array has a comma behind it where the
/// array breaks, and makes it break, unless its body ends with a comment.
pub proof fn lone_lambdas_get_a_comma(input: ParseInput, node: int)
    requires
        input.tree.kind_of(node) == GDScriptNodeKind::Array,
        input.tree.child_count_of(node) == 3,
        input.tree.child_kind_of(node, 1) == GDScriptNodeKind::Lambda,
        !lambda_ends_with_comment(*input.tree, input.tree.child_of(node, 1)),
    ensures
        node_docs(input, node) == grouped(
            wrapped_docs(
                input,
                node,
                child_docs(input, node, 1) + if_multiline(fixed(","@)) + force_break(),
            ),
        ),
{
    reveal(after_elements_docs);
    lemma_wrapped(input, node);
    lemma_element(input, node, 1);
    let lambda = input.tree.child_of(node, 1);
    assert(contains_lambda(*input.tree, lambda));
    assert(any_child_contains_lambda(*input.tree, node, 1, 2));
    assert(elements_from(input, node, 2) == nothing());
    assert(elements_from(input, node, 1) =~= child_docs(input, node, 1));
    assert(after_elements_docs(input, node) =~= if_multiline(fixed(","@)) + force_break());
    assert(node_docs(input, node) == container_docs(input, node));
}

} // verus!
