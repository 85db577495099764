//! Layouts that are the same but for where their text stands in the source.
use vstd::prelude::*;

use crate::document::{
    doc_size, docs_size, flatten, flatten_one, grouped, if_multiline, indented, lemma_flatten_len,
    Doc,
};
use crate::parser::ParseInput;
use crate::renderer::Element;

verus! {

/// True of elements of two layouts that are the same but for offsets.
pub open spec fn same_element(a: ParseInput, x: Element, b: ParseInput, y: Element) -> bool {
    match (x, y) {
        (Element::Text { start, end }, Element::Text { start: first, end: last }) => {
            a.bytes().subrange(start, end) == b.bytes().subrange(first, last)
        },
        (
            Element::Unformatted { start, end },
            Element::Unformatted { start: first, end: last },
        ) => a.bytes().subrange(start, end) == b.bytes().subrange(first, last),
        _ => x == y,
    }
}

/// True of documents of two layouts that are the same but for offsets.
pub open spec fn same_doc(a: ParseInput, x: Doc, b: ParseInput, y: Doc) -> bool
    decreases x,
{
    match x {
        Doc::Leaf(element) => y matches Doc::Leaf(other) && same_element(a, element, b, other),
        Doc::Indent { level, body } => y matches Doc::Indent { level: other_level, body: other }
            && level == other_level && same_docs(a, body, b, other),
        Doc::Group { fit, body } => y matches Doc::Group { fit: other_fit, body: other } && fit
            == other_fit && same_docs(a, body, b, other),
        Doc::Balanced { body } => y matches Doc::Balanced { body: other } && same_docs(
            a,
            body,
            b,
            other,
        ),
        Doc::IfMultiline { body } => y matches Doc::IfMultiline { body: other } && same_docs(
            a,
            body,
            b,
            other,
        ),
        Doc::IfSingleLine { body } => y matches Doc::IfSingleLine { body: other } && same_docs(
            a,
            body,
            b,
            other,
        ),
    }
}

/// True of sequences of documents of two layouts that are the same but for
/// offsets.
pub open spec fn same_docs(a: ParseInput, xs: Seq<Doc>, b: ParseInput, ys: Seq<Doc>) -> bool
    decreases xs,
{
    &&& xs.len() == ys.len()
    &&& forall|i: int| 0 <= i < xs.len() ==> same_doc(a, #[trigger] xs[i], b, ys[i])
}

/// Putting documents together keeps them the same.
pub proof fn lemma_same_concat(
    a: ParseInput,
    b: ParseInput,
    first: Seq<Doc>,
    second: Seq<Doc>,
    other_first: Seq<Doc>,
    other_second: Seq<Doc>,
)
    requires
        same_docs(a, first, b, other_first),
        same_docs(a, second, b, other_second),
    ensures
        same_docs(a, first + second, b, other_first + other_second),
{
    let xs = first + second;
    let ys = other_first + other_second;
    assert forall|i: int| 0 <= i < xs.len() implies same_doc(a, #[trigger] xs[i], b, ys[i]) by {
        if i < first.len() {
            assert(xs[i] == first[i] && ys[i] == other_first[i]);
        } else {
            let k = i - first.len();
            assert(xs[i] == second[k] && ys[i] == other_second[k]);
        }
    }
}

/// Documents around others keep them the same.
pub proof fn lemma_same_around(
    a: ParseInput,
    b: ParseInput,
    level: int,
    body: Seq<Doc>,
    other: Seq<Doc>,
)
    requires
        same_docs(a, body, b, other),
    ensures
        same_docs(a, indented(level, body), b, indented(level, other)),
        same_docs(a, grouped(body), b, grouped(other)),
        same_docs(a, if_multiline(body), b, if_multiline(other)),
{
    assert(same_doc(a, indented(level, body)[0], b, indented(level, other)[0]));
    assert(same_doc(a, grouped(body)[0], b, grouped(other)[0]));
    assert(same_doc(a, if_multiline(body)[0], b, if_multiline(other)[0]));
}

/// The flat forms of documents that are the same but for offsets are element by
/// element the same but for offsets.
pub proof fn same_documents_have_the_same_elements(
    a: ParseInput,
    xs: Seq<Doc>,
    b: ParseInput,
    ys: Seq<Doc>,
    position: int,
)
    requires
        same_docs(a, xs, b, ys),
    ensures
        docs_size(xs) == docs_size(ys),
        flatten(xs, position).len() == flatten(ys, position).len(),
        forall|i: int|
            0 <= i < flatten(xs, position).len() ==> same_element(
                a,
                #[trigger] flatten(xs, position)[i],
                b,
                flatten(ys, position)[i],
            ),
    decreases xs, 0int,
{
    lemma_flatten_len(xs, position);
    lemma_flatten_len(ys, position);
    if xs.len() > 0 {
        let rest = xs.drop_last();
        let other = ys.drop_last();
        assert forall|i: int| 0 <= i < rest.len() implies same_doc(
            a,
            #[trigger] rest[i],
            b,
            other[i],
        ) by {
            assert(rest[i] == xs[i] && other[i] == ys[i]);
        }
        same_documents_have_the_same_elements(a, rest, b, other, position);
        let last = xs[xs.len() - 1];
        assert(same_doc(a, last, b, ys.last()));
        lemma_same_flat_document(a, last, b, ys.last(), position + docs_size(rest));
        lemma_flatten_len(rest, position);
        lemma_flatten_len(other, position);
    }
}

/// The flat forms of a document and one that is the same but for offsets.
proof fn lemma_same_flat_document(a: ParseInput, x: Doc, b: ParseInput, y: Doc, position: int)
    requires
        same_doc(a, x, b, y),
    ensures
        flatten_one(x, position).len() == flatten_one(y, position).len(),
        doc_size(x) == doc_size(y),
        forall|i: int|
            0 <= i < flatten_one(x, position).len() ==> same_element(
                a,
                #[trigger] flatten_one(x, position)[i],
                b,
                flatten_one(y, position)[i],
            ),
    decreases x, 0int,
{
    match x {
        Doc::Leaf(_) => {},
        Doc::Indent { body, .. } => {
            if let Doc::Indent { body: other, .. } = y {
                same_documents_have_the_same_elements(a, body, b, other, position + 1);
            }
        },
        Doc::Group { body, .. } => {
            if let Doc::Group { body: other, .. } = y {
                same_documents_have_the_same_elements(a, body, b, other, position + 1);
            }
        },
        Doc::Balanced { body } => {
            if let Doc::Balanced { body: other } = y {
                same_documents_have_the_same_elements(a, body, b, other, position + 1);
            }
        },
        Doc::IfMultiline { body } => {
            if let Doc::IfMultiline { body: other } = y {
                same_documents_have_the_same_elements(a, body, b, other, position + 1);
            }
        },
        Doc::IfSingleLine { body } => {
            if let Doc::IfSingleLine { body: other } = y {
                same_documents_have_the_same_elements(a, body, b, other, position + 1);
            }
        },
    }
}

} // verus!
