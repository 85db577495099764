//! Documents that follow each other in a layout.
use vstd::prelude::*;

use crate::document::Doc;
use crate::renderer::Element;

verus! {

/// True where documents hold the first and the second of two parts, and nothing
/// but the gap between them.
pub open spec fn in_a_row(
    docs: Seq<Doc>,
    first: Seq<Doc>,
    gap: Seq<Doc>,
    second: Seq<Doc>,
) -> bool {
    exists|before: Seq<Doc>, after: Seq<Doc>|
        docs == #[trigger] (before + first + gap + second + after)
}

/// True of documents that are spaces, line breaks and empty lines.
pub open spec fn is_blank(docs: Seq<Doc>) -> bool {
    forall|i: int|
        0 <= i < docs.len() ==> #[trigger] docs[i] == Doc::Leaf(Element::Space) || docs[i]
            == Doc::Leaf(Element::HardLine) || docs[i] == Doc::Leaf(Element::BlankLine)
}

/// True of documents with a line break or an empty line.
pub open spec fn has_line_break(docs: Seq<Doc>) -> bool {
    exists|i: int|
        0 <= i < docs.len() && (#[trigger] docs[i] == Doc::Leaf(Element::HardLine) || docs[i]
            == Doc::Leaf(Element::BlankLine))
}

/// True of documents with an empty line.
pub open spec fn has_blank_line(docs: Seq<Doc>) -> bool {
    exists|i: int| 0 <= i < docs.len() && #[trigger] docs[i] == Doc::Leaf(Element::BlankLine)
}

/// Parts in a row are in a row in more documents, too.
pub proof fn lemma_row_inside(
    before: Seq<Doc>,
    docs: Seq<Doc>,
    after: Seq<Doc>,
    first: Seq<Doc>,
    gap: Seq<Doc>,
    second: Seq<Doc>,
)
    requires
        in_a_row(docs, first, gap, second),
    ensures
        in_a_row(before + docs + after, first, gap, second),
{
    let (front, back) = choose|front: Seq<Doc>, back: Seq<Doc>|
        docs == #[trigger] (front + first + gap + second + back);
    assert(before + docs + after =~= (before + front) + first + gap + second + (back + after));
}

/// Parts are in a row where they stand so.
pub proof fn lemma_row(
    before: Seq<Doc>,
    first: Seq<Doc>,
    gap: Seq<Doc>,
    second: Seq<Doc>,
    after: Seq<Doc>,
)
    ensures
        in_a_row(before + first + gap + second + after, first, gap, second),
{
}

/// A gap at the start of documents.
pub proof fn lemma_row_at_front(gap: Seq<Doc>, rest: Seq<Doc>)
    ensures
        in_a_row(gap + rest, Seq::empty(), gap, Seq::empty()),
{
    let empty = Seq::<Doc>::empty();
    assert(gap + rest =~= empty + empty + gap + empty + rest);
}

/// Parts in a row are in a row behind more documents, too.
pub proof fn lemma_row_behind(
    before: Seq<Doc>,
    docs: Seq<Doc>,
    first: Seq<Doc>,
    gap: Seq<Doc>,
    second: Seq<Doc>,
)
    requires
        in_a_row(docs, first, gap, second),
    ensures
        in_a_row(before + docs, first, gap, second),
{
    lemma_row_inside(before, docs, Seq::empty(), first, gap, second);
    assert(before + docs =~= before + docs + Seq::<Doc>::empty());
}

} // verus!
