//! What holds of the flat form of documents.
use vstd::prelude::*;

use crate::document::{
    balanced_line, blank_line, blank_lines, docs_size, flatten, flatten_one, force_break,
    hard_and_blank_line, hard_line, header, is_leaf_element, lemma_flatten_len, nothing, soft_line,
    space, space_single_line_only, Doc,
};
use crate::renderer::{Element, GroupParentFit};

verus! {

/// The range of elements that an element spans.
pub open spec fn spanned(element: Element) -> Option<(int, int)> {
    match element {
        Element::Indent { start, end, .. } => Some((start, end)),
        Element::Group { start, end, .. } => Some((start, end)),
        Element::BalancedGroup { start, end } => Some((start, end)),
        Element::Branch { single: Some(range), multi: None } => Some(range),
        Element::Branch { single: None, multi: Some(range) } => Some(range),
        _ => None,
    }
}

/// True of elements, the first of them at `position`, whose spans start right
/// behind them, end with the elements at the latest, and contain the spans of
/// all elements in them.
pub open spec fn is_well_nested(elements: Seq<Element>, position: int) -> bool {
    forall|i: int|
        #![trigger elements[i]]
        0 <= i < elements.len() ==> (spanned(elements[i]) matches Some((start, end)) ==> {
            &&& start == position + i + 1
            &&& start <= end <= position + elements.len()
            &&& spans_stay_within(elements, i + 1, end - position, end)
        })
}

/// True where the spans of the elements from `from` up to, not including, `to`
/// end at `end` at the latest.
pub open spec fn spans_stay_within(elements: Seq<Element>, from: int, to: int, end: int) -> bool {
    forall|i: int|
        #![trigger elements[i]]
        from <= i < to ==> (spanned(elements[i]) matches Some((_, inner)) ==> inner <= end)
}

/// True of documents whose leaves are elements that span no others.
pub open spec fn has_proper_leaves(docs: Seq<Doc>) -> bool
    decreases docs,
{
    forall|i: int| 0 <= i < docs.len() ==> is_proper(#[trigger] docs[i])
}

/// True of a document whose leaves are elements that span no others.
pub open spec fn is_proper(doc: Doc) -> bool
    decreases doc,
{
    match doc {
        Doc::Leaf(element) => is_leaf_element(element),
        Doc::Indent { body, .. } => has_proper_leaves(body),
        Doc::Group { body, .. } => has_proper_leaves(body),
        Doc::Balanced { body } => has_proper_leaves(body),
        Doc::IfMultiline { body } => has_proper_leaves(body),
        Doc::IfSingleLine { body } => has_proper_leaves(body),
    }
}

/// Well-nested elements stay well-nested behind others.
proof fn lemma_concat_is_well_nested(first: Seq<Element>, second: Seq<Element>, position: int)
    requires
        is_well_nested(first, position),
        is_well_nested(second, position + first.len()),
    ensures
        is_well_nested(first + second, position),
{
    let all = first + second;
    assert forall|i: int|
        #![trigger all[i]]
        0 <= i < all.len() implies (spanned(all[i]) matches Some((start, end)) ==> {
        &&& start == position + i + 1
        &&& start <= end <= position + all.len()
        &&& spans_stay_within(all, i + 1, end - position, end)
    }) by {
        if i < first.len() {
            assert(all[i] == first[i]);
            if spanned(all[i]) is Some {
                let end = spanned(all[i]).unwrap().1;
                assert(spans_stay_within(first, i + 1, end - position, end));
                assert forall|j: int|
                    #![trigger all[j]]
                    i + 1 <= j < end - position implies (spanned(all[j]) matches Some((_, inner))
                    ==> inner <= end) by {
                    assert(all[j] == first[j]);
                }
            }
        } else {
            assert(all[i] == second[i - first.len()]);
            if spanned(all[i]) is Some {
                let end = spanned(all[i]).unwrap().1;
                assert(spans_stay_within(
                    second,
                    i - first.len() + 1,
                    end - position - first.len(),
                    end,
                ));
                assert forall|j: int|
                    #![trigger all[j]]
                    i + 1 <= j < end - position implies (spanned(all[j]) matches Some((_, inner))
                    ==> inner <= end) by {
                    assert(all[j] == second[j - first.len()]);
                }
            }
        }
    }
}

/// The flat form of documents is well-nested: every span covers the elements
/// right behind its header, and spans do not overlap but by nesting.
pub proof fn flat_documents_are_well_nested(docs: Seq<Doc>, position: int)
    requires
        has_proper_leaves(docs),
    ensures
        is_well_nested(flatten(docs, position), position),
    decreases docs, 0int,
{
    if docs.len() > 0 {
        let rest = docs.drop_last();
        let last = docs[docs.len() - 1];
        assert forall|i: int| 0 <= i < rest.len() implies is_proper(#[trigger] rest[i]) by {
            assert(rest[i] == docs[i]);
        }
        flat_documents_are_well_nested(rest, position);
        lemma_flatten_len(rest, position);
        assert(is_proper(last));
        lemma_flat_document_is_well_nested(last, position + docs_size(rest));
        lemma_concat_is_well_nested(
            flatten(rest, position),
            flatten_one(last, position + docs_size(rest)),
            position,
        );
    }
}

/// The flat form of one document is well-nested.
proof fn lemma_flat_document_is_well_nested(doc: Doc, position: int)
    requires
        is_proper(doc),
    ensures
        is_well_nested(flatten_one(doc, position), position),
    decreases doc, 0int,
{
    match doc {
        Doc::Leaf(element) => {
            assert(flatten_one(doc, position)[0] == element);
        },
        Doc::Indent { body, .. } => {
            flat_documents_are_well_nested(body, position + 1);
            lemma_span_is_well_nested(doc, body, position);
        },
        Doc::Group { body, .. } => {
            flat_documents_are_well_nested(body, position + 1);
            lemma_span_is_well_nested(doc, body, position);
        },
        Doc::Balanced { body } => {
            flat_documents_are_well_nested(body, position + 1);
            lemma_span_is_well_nested(doc, body, position);
        },
        Doc::IfMultiline { body } => {
            flat_documents_are_well_nested(body, position + 1);
            lemma_span_is_well_nested(doc, body, position);
        },
        Doc::IfSingleLine { body } => {
            flat_documents_are_well_nested(body, position + 1);
            lemma_span_is_well_nested(doc, body, position);
        },
    }
}

/// A header and well-nested elements behind it are well-nested.
proof fn lemma_span_is_well_nested(doc: Doc, body: Seq<Doc>, position: int)
    requires
        is_well_nested(flatten(body, position + 1), position + 1),
        flatten_one(doc, position) == seq![
            header(doc, position + 1, position + 1 + docs_size(body)),
        ] + flatten(body, position + 1),
        spanned(header(doc, position + 1, position + 1 + docs_size(body))) == Some(
            (position + 1, position + 1 + docs_size(body)),
        ),
    ensures
        is_well_nested(flatten_one(doc, position), position),
{
    let all = flatten_one(doc, position);
    let inner = flatten(body, position + 1);
    lemma_flatten_len(body, position + 1);
    assert forall|i: int|
        #![trigger all[i]]
        0 <= i < all.len() implies (spanned(all[i]) matches Some((start, end)) ==> {
        &&& start == position + i + 1
        &&& start <= end <= position + all.len()
        &&& spans_stay_within(all, i + 1, end - position, end)
    }) by {
        if i == 0 {
            let end = position + 1 + docs_size(body);
            assert forall|j: int|
                #![trigger all[j]]
                1 <= j < end - position implies (spanned(all[j]) matches Some((_, last)) ==> last
                <= end) by {
                assert(all[j] == inner[j - 1]);
            }
        } else {
            assert(all[i] == inner[i - 1]);
            if spanned(all[i]) is Some {
                let end = spanned(all[i]).unwrap().1;
                assert(spans_stay_within(inner, i, end - position - 1, end));
                assert forall|j: int|
                    #![trigger all[j]]
                    i + 1 <= j < end - position implies (spanned(all[j]) matches Some((_, last))
                    ==> last <= end) by {
                    assert(all[j] == inner[j - 1]);
                }
            }
        }
    }
}

/// What nested documents become: an element that says what they are and spans the
/// elements of what is in them, which follow right behind it.
pub proof fn nested_documents_span_their_contents(
    level: int,
    fit: GroupParentFit,
    body: Seq<Doc>,
    position: int,
)
    ensures
        ({
            let start = position + 1;
            let end = start + flatten(body, start).len();
            &&& flatten_one(Doc::Indent { level, body }, position) == seq![
                Element::Indent { level, start, end },
            ] + flatten(body, start)
            &&& flatten_one(Doc::Group { fit, body }, position) == seq![
                Element::Group { fit, start, end },
            ] + flatten(body, start)
            &&& flatten_one(Doc::Balanced { body }, position) == seq![
                Element::BalancedGroup { start, end },
            ] + flatten(body, start)
            &&& flatten_one(Doc::IfMultiline { body }, position) == seq![
                Element::Branch { single: None, multi: Some((start, end)) },
            ] + flatten(body, start)
            &&& flatten_one(Doc::IfSingleLine { body }, position) == seq![
                Element::Branch { single: Some((start, end)), multi: None },
            ] + flatten(body, start)
        }),
{
    lemma_flatten_len(body, position + 1);
}

/// Documents one after the other become their elements one after the other.
pub proof fn documents_become_their_elements_in_order(
    first: Seq<Doc>,
    second: Seq<Doc>,
    position: int,
)
    ensures
        flatten(first + second, position) == flatten(first, position) + flatten(
            second,
            position + flatten(first, position).len(),
        ),
    decreases second.len(),
{
    let all = first + second;
    lemma_flatten_len(first, position);
    if second.len() == 0 {
        assert(all =~= first);
        assert(flatten(second, position + flatten(first, position).len()) =~= Seq::<
            Element,
        >::empty());
        assert(flatten(first, position) + Seq::<Element>::empty() =~= flatten(first, position));
    } else {
        let rest = second.drop_last();
        let start = position + flatten(first, position).len();
        assert(all.drop_last() =~= first + rest);
        assert(all.last() == second.last());
        documents_become_their_elements_in_order(first, rest, position);
        lemma_flatten_len(rest, start);
        lemma_flatten_len(first + rest, position);
        assert(flatten(all, position) =~= flatten(first, position) + flatten(second, start));
    }
}

/// A single element becomes itself, and no documents become nothing.
pub proof fn elements_become_themselves(element: Element, position: int)
    ensures
        flatten(seq![Doc::Leaf(element)], position) == seq![element],
        flatten(Seq::<Doc>::empty(), position) == Seq::<Element>::empty(),
{
    let docs = seq![Doc::Leaf(element)];
    assert(docs.drop_last() =~= Seq::<Doc>::empty());
    assert(docs.last() == Doc::Leaf(element));
    assert(flatten(Seq::<Doc>::empty(), position) =~= Seq::<Element>::empty());
    assert(flatten_one(docs.last(), position + docs_size(docs.drop_last())) == seq![element]);
    assert(flatten(docs, position) =~= seq![element]);
}

/// What the names of documents stand for: as many empty lines as asked for, and
/// single elements otherwise.
pub proof fn lines_are_what_they_say(count: int)
    ensures
        0 <= count ==> blank_lines(count).len() == count,
        forall|i: int|
            0 <= i < blank_lines(count).len() ==> #[trigger] blank_lines(count)[i] == Doc::Leaf(
                Element::BlankLine,
            ),
        space() == seq![Doc::Leaf(Element::Space)],
        space_single_line_only() == seq![Doc::Leaf(Element::SpaceSingleLineOnly)],
        soft_line() == seq![Doc::Leaf(Element::SoftLine)],
        hard_line() == seq![Doc::Leaf(Element::HardLine)],
        blank_line() == seq![Doc::Leaf(Element::BlankLine)],
        hard_and_blank_line() == seq![
            Doc::Leaf(Element::HardLine),
            Doc::Leaf(Element::BlankLine),
        ],
        balanced_line() == seq![Doc::Leaf(Element::BalancedLine)],
        force_break() == seq![Doc::Leaf(Element::ForceBreakingParent)],
        nothing() == Seq::<Doc>::empty(),
{
    assert(hard_and_blank_line() =~= seq![
        Doc::Leaf(Element::HardLine),
        Doc::Leaf(Element::BlankLine),
    ]);
}

} // verus!
