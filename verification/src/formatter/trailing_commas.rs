//! A trailing comma makes no difference to the layout of a container.
use vstd::prelude::*;

use crate::document::{
    blank_line, fixed, force_break, group_concat, hard_line, indented, nothing, soft_line,
    space_single_line_only,
};
use crate::formatter::containers::{
    after_comma_docs, after_elements_docs, container_contents, container_docs, element_docs,
    element_separator_docs, elements_from, has_inner_space, inserts_comma_before, is_trailing_comma,
    trailing_comma, writes_trailing_comma,
};
use crate::formatter::likeness::{lemma_same_around, lemma_same_concat, same_docs};
use crate::formatter::nodes::child_docs;
use crate::formatter::queries::{
    any_child_contains_lambda, contains_lambda, first_child_of_kind, newlines_before_child,
    parent_is,
};
use crate::formatter::separators::separator_docs;
use crate::node_kind::GDScriptNodeKind;
use crate::parser::ParseInput;

verus! {

/// True of two children of containers that are the same but for where they
/// stand.
pub open spec fn same_child(
    a: ParseInput,
    m: int,
    i: int,
    b: ParseInput,
    n: int,
    j: int,
) -> bool {
    &&& a.tree.child_kind_of(m, i) == b.tree.child_kind_of(n, j)
    &&& contains_lambda(*a.tree, a.tree.child_of(m, i)) == contains_lambda(
        *b.tree,
        b.tree.child_of(n, j),
    )
    &&& same_docs(a, child_docs(a, m, i), b, child_docs(b, n, j))
}

/// True of a container whose children between the delimiters, up to `end`, are
/// elements with a comma between each two of them.
pub open spec fn is_list(input: ParseInput, node: int, end: int) -> bool {
    forall|i: int|
        #![trigger input.tree.child_kind_of(node, i)]
        1 <= i < end ==> if i % 2 == 0 {
            input.tree.child_kind_of(node, i) == GDScriptNodeKind::TokenComma
        } else {
            input.tree.child_kind_of(node, i) != GDScriptNodeKind::TokenComma
                && input.tree.child_kind_of(node, i) != GDScriptNodeKind::Comment
        }
}

/// True of two containers of the same two or more elements, without comments,
/// of which the second one has a trailing comma and the first one has none.
pub open spec fn differ_in_trailing_comma(a: ParseInput, m: int, b: ParseInput, n: int) -> bool {
    let count = a.tree.child_count_of(m);
    &&& count >= 5 && count % 2 == 1
    &&& b.tree.child_count_of(n) == count + 1
    &&& a.tree.kind_of(m) == b.tree.kind_of(n)
    &&& parent_is(*a.tree, m, GDScriptNodeKind::Function) == parent_is(
        *b.tree,
        n,
        GDScriptNodeKind::Function,
    )
    &&& is_list(a, m, count - 1)
    &&& is_list(b, n, count)
    &&& !contains_lambda(*b.tree, b.tree.child_of(n, count - 1))
    &&& forall|i: int| 0 <= i < count - 1 ==> #[trigger] same_child(a, m, i, b, n, i)
    &&& same_child(a, m, count - 1, b, n, count)
    &&& forall|i: int|
        1 < i < count - 1 ==> (#[trigger] newlines_before_child(a, m, i) > 1
            <==> newlines_before_child(b, n, i) > 1)
}

/// Nothing separates a comma from what stands before it.
proof fn lemma_before_comma(input: ParseInput, parent: GDScriptNodeKind, previous: int, comma: int)
    requires
        input.tree.kind_of(comma) == GDScriptNodeKind::TokenComma,
        input.tree.kind_of(previous) != GDScriptNodeKind::Comment,
    ensures
        separator_docs(input, parent, previous, comma) == nothing(),
{
    reveal(separator_docs);
}

/// Documents without text are the same everywhere.
proof fn lemma_same_punctuation(a: ParseInput, b: ParseInput)
    ensures
        same_docs(a, nothing(), b, nothing()),
        same_docs(a, soft_line(), b, soft_line()),
        same_docs(a, hard_line(), b, hard_line()),
        same_docs(a, blank_line(), b, blank_line()),
        same_docs(a, force_break(), b, force_break()),
        same_docs(a, space_single_line_only(), b, space_single_line_only()),
        same_docs(a, fixed(","@), b, fixed(","@)),
        same_docs(a, trailing_comma(), b, trailing_comma()),
        same_docs(
            a,
            soft_line() + space_single_line_only(),
            b,
            soft_line() + space_single_line_only(),
        ),
{
    lemma_same_around(a, b, 1, fixed(","@), fixed(","@));
    lemma_same_concat(
        a,
        b,
        soft_line(),
        space_single_line_only(),
        soft_line(),
        space_single_line_only(),
    );
}

/// Elements of two lists are the same.
proof fn lemma_same_element(a: ParseInput, m: int, b: ParseInput, n: int, i: int)
    requires
        differ_in_trailing_comma(a, m, b, n),
        1 <= i < a.tree.child_count_of(m) - 1,
    ensures
        same_docs(a, element_docs(a, m, i), b, element_docs(b, n, i)),
{
    broadcast use group_concat;

    let count = a.tree.child_count_of(m);
    lemma_same_punctuation(a, b);
    assert(same_child(a, m, i, b, n, i));
    assert(a.tree.child_kind_of(m, i) == b.tree.child_kind_of(n, i));
    assert(!inserts_comma_before(a, m, i) && !inserts_comma_before(b, n, i));
    assert(element_separator_docs(a, m, i) == nothing() && element_separator_docs(b, n, i)
        == nothing()) by {
        if i > 1 {
            assert(same_child(a, m, i - 1, b, n, i - 1));
            assert(a.tree.child_kind_of(m, i - 1) == b.tree.child_kind_of(n, i - 1));
            if i % 2 == 0 {
                assert((i - 1) % 2 == 1);
                lemma_before_comma(
                    a,
                    a.tree.kind_of(m),
                    a.tree.child_of(m, i - 1),
                    a.tree.child_of(m, i),
                );
                lemma_before_comma(
                    b,
                    b.tree.kind_of(n),
                    b.tree.child_of(n, i - 1),
                    b.tree.child_of(n, i),
                );
            } else {
                assert((i - 1) % 2 == 0);
            }
        }
    }
    let blank = if i > 1 && newlines_before_child(a, m, i) > 1 {
        blank_line()
    } else {
        nothing()
    };
    if i > 1 {
        assert(newlines_before_child(a, m, i) > 1 <==> newlines_before_child(b, n, i) > 1);
    }
    assert(after_comma_docs(a, m, i) == after_comma_docs(b, n, i)) by {
        if i % 2 == 0 {
            assert((i + 1) % 2 == 1);
            assert(i + 1 < count - 1);
            assert(a.tree.child_kind_of(m, i + 1) != GDScriptNodeKind::Comment);
            assert(b.tree.child_kind_of(n, i + 1) != GDScriptNodeKind::Comment);
        }
    }
    let after = after_comma_docs(a, m, i);
    assert(same_docs(a, after, b, after));
    assert(same_docs(a, blank, b, blank));
    lemma_same_concat(a, b, blank, child_docs(a, m, i), blank, child_docs(b, n, i));
    lemma_same_concat(
        a,
        b,
        blank + child_docs(a, m, i),
        after,
        blank + child_docs(b, n, i),
        after,
    );
    assert(element_docs(a, m, i) == blank + child_docs(a, m, i) + after);
    assert(element_docs(b, n, i) == blank + child_docs(b, n, i) + after);
}

proof fn lemma_same_elements(a: ParseInput, m: int, b: ParseInput, n: int, i: int)
    requires
        differ_in_trailing_comma(a, m, b, n),
        1 <= i <= a.tree.child_count_of(m) - 1,
    ensures
        same_docs(a, elements_from(a, m, i), b, elements_from(b, n, i)),
    decreases a.tree.child_count_of(m) - i,
{
    let count = a.tree.child_count_of(m);
    lemma_same_punctuation(a, b);
    if i == count - 1 {
        assert(b.tree.child_kind_of(n, i) == GDScriptNodeKind::TokenComma);
        assert(is_trailing_comma(b, n, i));
    } else {
        lemma_same_element(a, m, b, n, i);
        lemma_same_elements(a, m, b, n, i + 1);
        assert(!is_trailing_comma(b, n, i));
        assert(!is_trailing_comma(a, m, i)) by {
            if i == count - 2 {
                assert(i % 2 == 1);
                assert(a.tree.child_kind_of(m, i) != GDScriptNodeKind::TokenComma);
            }
        }
        lemma_same_concat(
            a,
            b,
            element_docs(a, m, i),
            elements_from(a, m, i + 1),
            element_docs(b, n, i),
            elements_from(b, n, i + 1),
        );
    }
}

/// There are no comments in a list.
proof fn lemma_no_comment(input: ParseInput, node: int, from: int, to: int)
    requires
        is_list(input, node, to),
        1 <= from,
    ensures
        first_child_of_kind(*input.tree, node, from, to, GDScriptNodeKind::Comment) is None,
    decreases to - from,
{
    if from < to {
        assert(input.tree.child_kind_of(node, from) != GDScriptNodeKind::Comment);
        lemma_no_comment(input, node, from + 1, to);
    }
}

/// What stands behind the elements is the same: a comma that only appears where
/// the container breaks.
proof fn lemma_same_after_elements(a: ParseInput, m: int, b: ParseInput, n: int)
    requires
        differ_in_trailing_comma(a, m, b, n),
    ensures
        same_docs(a, after_elements_docs(a, m), b, after_elements_docs(b, n)),
        writes_trailing_comma(a, m),
        writes_trailing_comma(b, n),
{
    broadcast use group_concat;

    reveal(after_elements_docs);
    let count = a.tree.child_count_of(m);
    lemma_same_punctuation(a, b);
    assert((count - 2) % 2 == 1);
    assert(a.tree.child_kind_of(m, count - 2) != GDScriptNodeKind::TokenComma);
    assert(a.tree.child_kind_of(m, count - 2) != GDScriptNodeKind::Comment);
    assert(b.tree.child_kind_of(n, count - 2) != GDScriptNodeKind::Comment);
    assert(b.tree.child_kind_of(n, count - 1) == GDScriptNodeKind::TokenComma);
    assert(any_child_contains_lambda(*a.tree, m, 1, count - 1) == any_child_contains_lambda(
        *b.tree,
        n,
        1,
        count,
    )) by {
        if any_child_contains_lambda(*a.tree, m, 1, count - 1) {
            let i = choose|i: int|
                #![trigger a.tree.child_of(m, i)]
                1 <= i < count - 1 && contains_lambda(*a.tree, a.tree.child_of(m, i));
            assert(same_child(a, m, i, b, n, i));
            assert(contains_lambda(*b.tree, b.tree.child_of(n, i)));
        }
        if any_child_contains_lambda(*b.tree, n, 1, count) {
            let i = choose|i: int|
                #![trigger b.tree.child_of(n, i)]
                1 <= i < count && contains_lambda(*b.tree, b.tree.child_of(n, i));
            assert(i < count - 1);
            assert(same_child(a, m, i, b, n, i));
            assert(contains_lambda(*a.tree, a.tree.child_of(m, i)));
        }
    }
    assert(after_elements_docs(a, m) == after_elements_docs(b, n));
    lemma_same_concat(
        a,
        b,
        trailing_comma(),
        force_break(),
        trailing_comma(),
        force_break(),
    );
}

/// A trailing comma makes no difference to the layout of a container of two or
/// more elements: with and without it, the layout is the same but for where the
/// text stands in the source. The comma itself is not written; in its place
/// stands one that only appears where the container breaks.
pub proof fn trailing_commas_make_no_difference(a: ParseInput, m: int, b: ParseInput, n: int)
    requires
        differ_in_trailing_comma(a, m, b, n),
    ensures
        same_docs(a, container_docs(a, m), b, container_docs(b, n)),
        writes_trailing_comma(a, m),
        writes_trailing_comma(b, n),
{
    broadcast use group_concat;

    let count = a.tree.child_count_of(m);
    lemma_same_punctuation(a, b);
    lemma_same_elements(a, m, b, n, 1);
    lemma_same_after_elements(a, m, b, n);
    lemma_no_comment(a, m, 1, count - 1);
    lemma_no_comment(b, n, 1, count);
    assert(same_child(a, m, 0, b, n, 0));
    let inner_space = if has_inner_space(a.tree.kind_of(m)) {
        space_single_line_only()
    } else {
        nothing()
    };
    let open = child_docs(a, m, 0);
    let other_open = child_docs(b, n, 0);
    let body = elements_from(a, m, 1) + after_elements_docs(a, m);
    let other_body = elements_from(b, n, 1) + after_elements_docs(b, n);
    let close = child_docs(a, m, count - 1);
    let other_close = child_docs(b, n, count);
    lemma_same_concat(
        a,
        b,
        elements_from(a, m, 1),
        after_elements_docs(a, m),
        elements_from(b, n, 1),
        after_elements_docs(b, n),
    );
    lemma_same_around(a, b, 1, body, other_body);
    lemma_same_concat(a, b, inner_space, close, inner_space, other_close);
    lemma_same_concat(
        a,
        b,
        soft_line(),
        inner_space + close,
        soft_line(),
        inner_space + other_close,
    );
    lemma_same_concat(
        a,
        b,
        indented(1, body),
        soft_line() + (inner_space + close),
        indented(1, other_body),
        soft_line() + (inner_space + other_close),
    );
    let rest = indented(1, body) + (soft_line() + (inner_space + close));
    let other_rest = indented(1, other_body) + (soft_line() + (inner_space + other_close));
    lemma_same_concat(a, b, soft_line(), rest, soft_line(), other_rest);
    lemma_same_concat(a, b, inner_space, soft_line() + rest, inner_space, soft_line() + other_rest);
    lemma_same_concat(
        a,
        b,
        open,
        inner_space + (soft_line() + rest),
        other_open,
        inner_space + (soft_line() + other_rest),
    );
    assert(container_contents(a, m) == open + (inner_space + (soft_line() + rest)));
    assert(container_contents(b, n) == other_open + (inner_space + (soft_line() + other_rest)));
    lemma_same_around(a, b, 1, container_contents(a, m), container_contents(b, n));
}

} // verus!
