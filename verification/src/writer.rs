//! Writes render elements, and keeps track of the documents they stand for.
use vstd::prelude::*;

use crate::document::{
    balanced_line, blank_line, blank_lines, docs_size, fixed, flatten, flatten_one, force_break,
    hard_and_blank_line, hard_line, header, is_leaf_element, lemma_flatten_len, soft_line,
    source_text, space, space_single_line_only, unformatted, Doc,
};
use crate::renderer::{
    element_views, Element, GroupParentFit, RangeRenderElement, RangeSourceBytes, RenderElement,
};

verus! {

/// A vector of render elements under construction.
///
/// The elements are `prefix` followed by the flat form of `docs`. Opening a
/// span (an indent, a group, a branch) moves everything written so far into
/// the prefix, and closing it puts the documents written since then into one
/// nested document.
pub struct ElementWriter {
    elements: Vec<RenderElement>,
    prefix: Ghost<Seq<Element>>,
    docs: Ghost<Seq<Doc>>,
}

/// The kinds of spans.
#[derive(Clone, Copy, Debug, PartialEq, Eq, Structural)]
pub enum SpanKind {
    Indent { level: u16 },
    Group { fit: GroupParentFit },
    BalancedGroup,
    MultilineBranch,
    SingleLineBranch,
}

/// The document that a span with the given body becomes.
pub open spec fn span_doc(kind: SpanKind, body: Seq<Doc>) -> Doc {
    match kind {
        SpanKind::Indent { level } => Doc::Indent { level: level as int, body },
        SpanKind::Group { fit } => Doc::Group { fit, body },
        SpanKind::BalancedGroup => Doc::Balanced { body },
        SpanKind::MultilineBranch => Doc::IfMultiline { body },
        SpanKind::SingleLineBranch => Doc::IfSingleLine { body },
    }
}

/// A span that was opened and not yet closed: its kind, the position of its
/// header, and what had been written before it.
pub struct OpenSpan {
    kind: SpanKind,
    index: usize,
    prefix: Ghost<Seq<Element>>,
    docs: Ghost<Seq<Doc>>,
}

impl OpenSpan {
    /// The kind of the span.
    pub closed spec fn kind(self) -> SpanKind {
        self.kind
    }

    /// The position of its header.
    pub closed spec fn index(self) -> int {
        self.index as int
    }

    /// What stood in front of the documents of the level around the span.
    pub closed spec fn prefix(self) -> Seq<Element> {
        self.prefix@
    }

    /// The documents of the level around the span.
    pub closed spec fn docs(self) -> Seq<Doc> {
        self.docs@
    }

    /// True where a writer with this prefix is writing the body of the span.
    pub closed spec fn is_open(self, writer_prefix: Seq<Element>) -> bool {
        let outer = self.prefix@ + flatten(self.docs@, self.prefix@.len() as int);
        &&& self.index == outer.len()
        &&& writer_prefix == outer + seq![header(span_doc(self.kind, Seq::empty()), 0, 0)]
    }
}

/// True where `after` continues `before` at the same level with `docs`.
pub open spec fn wrote(before: ElementWriter, after: ElementWriter, docs: Seq<Doc>) -> bool {
    &&& after.wf()
    &&& after.prefix() == before.prefix()
    &&& after.docs() == before.docs() + docs
}

/// True where `current` has written a part of `total` since `before`, and
/// `rest` is what is left of it.
pub open spec fn is_writing(
    before: ElementWriter,
    current: ElementWriter,
    rest: Seq<Doc>,
    total: Seq<Doc>,
) -> bool {
    &&& current.wf()
    &&& current.prefix() == before.prefix()
    &&& current.docs() + rest == before.docs() + total
}

impl ElementWriter {
    /// The elements written so far.
    pub closed spec fn elements(self) -> Seq<Element> {
        element_views(self.elements@)
    }

    /// The elements are the prefix and the flat form of the documents.
    pub open spec fn wf(self) -> bool {
        self.elements() == self.prefix() + flatten(self.docs(), self.prefix().len() as int)
    }

    /// What stands in front of the documents of the current level.
    pub closed spec fn prefix(self) -> Seq<Element> {
        self.prefix@
    }

    /// The documents written so far at the current level.
    pub closed spec fn docs(self) -> Seq<Doc> {
        self.docs@
    }

    /// Starts with nothing written, in the memory of a vector.
    pub fn with_buffer(buffer: Vec<RenderElement>) -> (writer: ElementWriter)
        ensures
            writer.wf(),
            writer.prefix() == Seq::<Element>::empty(),
            writer.docs() == Seq::<Doc>::empty(),
    {
        let mut elements = buffer;
        elements.clear();
        let writer = ElementWriter {
            elements,
            prefix: Ghost(Seq::empty()),
            docs: Ghost(Seq::empty()),
        };
        assert(element_views(writer.elements@) =~= Seq::<Element>::empty());
        writer
    }

    /// Hands out the elements.
    pub fn into_elements(self) -> (elements: Vec<RenderElement>)
        requires
            self.wf(),
        ensures
            element_views(elements@) == self.elements(),
    {
        self.elements
    }

    /// Writes one element that spans no others.
    pub fn push(&mut self, element: RenderElement)
        requires
            old(self).wf(),
            is_leaf_element(element@),
        ensures
            wrote(*old(self), *final(self), seq![Doc::Leaf(element@)]),
            final(self).elements() == old(self).elements().push(element@),
    {
        let ghost doc = Doc::Leaf(element@);
        let ghost before = element_views(self.elements@);
        self.elements.push(element);
        proof {
            let docs = self.docs@.push(doc);
            let start = self.prefix@.len() as int;
            assert(docs.drop_last() =~= self.docs@);
            assert(element_views(self.elements@) =~= before.push(element@));
            assert(docs.last() == doc);
            assert(flatten_one(doc, start + docs_size(self.docs@)) =~= seq![element@]);
            assert(flatten(docs, start) =~= flatten(self.docs@, start) + seq![element@]);
            assert(docs =~= self.docs@ + seq![doc]);
            self.docs@ = docs;
            assert(element_views(self.elements@) =~= self.prefix@ + flatten(docs, start));
        }
    }

    /// One space.
    pub fn push_space(&mut self)
        requires
            old(self).wf(),
        ensures
            wrote(*old(self), *final(self), space()),
    {
        self.push(RenderElement::Space);
    }

    /// One space that disappears where the surrounding group breaks.
    pub fn push_space_single_line_only(&mut self)
        requires
            old(self).wf(),
        ensures
            wrote(*old(self), *final(self), space_single_line_only()),
    {
        self.push(RenderElement::SpaceSingleLineOnly);
    }

    /// A line break if the surrounding group breaks.
    pub fn push_soft_line(&mut self)
        requires
            old(self).wf(),
        ensures
            wrote(*old(self), *final(self), soft_line()),
    {
        self.push(RenderElement::SoftLine);
    }

    /// A line break.
    pub fn push_hard_line(&mut self)
        requires
            old(self).wf(),
        ensures
            wrote(*old(self), *final(self), hard_line()),
    {
        self.push(RenderElement::HardLine);
    }

    /// An empty line.
    pub fn push_blank_line(&mut self)
        requires
            old(self).wf(),
        ensures
            wrote(*old(self), *final(self), blank_line()),
    {
        self.push(RenderElement::BlankLine);
    }

    /// A possible line break of a balanced group.
    pub fn push_balanced_line(&mut self)
        requires
            old(self).wf(),
        ensures
            wrote(*old(self), *final(self), balanced_line()),
    {
        self.push(RenderElement::BalancedLine);
    }

    /// Makes the surrounding groups break.
    pub fn push_force_break(&mut self)
        requires
            old(self).wf(),
        ensures
            wrote(*old(self), *final(self), force_break()),
    {
        self.push(RenderElement::ForceBreakingParent);
    }

    /// A line break and an empty line.
    pub fn push_hard_and_blank_line(&mut self)
        requires
            old(self).wf(),
        ensures
            wrote(*old(self), *final(self), hard_and_blank_line()),
    {
        self.push_hard_line();
        self.push_blank_line();
        assert(self.docs() =~= old(self).docs() + hard_and_blank_line());
    }

    /// A range of the source.
    pub fn push_text(&mut self, start_byte: usize, end_byte: usize)
        requires
            old(self).wf(),
        ensures
            wrote(*old(self), *final(self), source_text(start_byte as int, end_byte as int)),
    {
        self.push(RenderElement::Text { range: RangeSourceBytes { start_byte, end_byte } });
    }

    /// A range of the source that is copied as it is.
    pub fn push_unformatted(&mut self, start_byte: usize, end_byte: usize)
        requires
            old(self).wf(),
        ensures
            wrote(*old(self), *final(self), unformatted(start_byte as int, end_byte as int)),
    {
        self.push(
            RenderElement::UnformattedSource { range: RangeSourceBytes { start_byte, end_byte } },
        );
    }

    /// A fixed piece of punctuation.
    pub fn push_fixed(&mut self, text: &'static str)
        requires
            old(self).wf(),
        ensures
            wrote(*old(self), *final(self), fixed(text@)),
    {
        self.push(RenderElement::TextStatic(text));
    }

    /// Outputs `count` blank lines.
    pub fn push_blank_lines(&mut self, count: u16)
        requires
            old(self).wf(),
        ensures
            wrote(*old(self), *final(self), blank_lines(count as int)),
    {
        let mut remaining: u16 = count;
        assert(self.docs() =~= old(self).docs() + blank_lines(0));
        while remaining > 0
            invariant
                remaining <= count,
                wrote(*old(self), *self, blank_lines(count - remaining)),
            decreases remaining,
        {
            self.push_blank_line();
            assert(blank_lines(count - remaining) + blank_line() =~= blank_lines(
                count - remaining + 1,
            ));
            remaining = remaining - 1;
            assert(self.docs() =~= old(self).docs() + blank_lines(count - remaining));
        }
    }

    /// Opens a span. The range in its header is not known yet.
    pub fn begin(&mut self, kind: SpanKind) -> (span: OpenSpan)
        requires
            old(self).wf(),
        ensures
            span.index() == old(self).elements().len(),
            final(self).elements() == old(self).elements().push(
                header(span_doc(kind, Seq::empty()), 0, 0),
            ),
            final(self).wf(),
            final(self).docs() == Seq::<Doc>::empty(),
            span.kind() == kind,
            span.prefix() == old(self).prefix(),
            span.docs() == old(self).docs(),
            span.is_open(final(self).prefix()),
    {
        let index: usize = self.elements.len();
        let span = OpenSpan { kind, index, prefix: self.prefix, docs: self.docs };
        let ghost before = element_views(self.elements@);
        let element = header_element(kind, RangeRenderElement { start: 0, end: 0 });
        self.elements.push(element);
        proof {
            self.prefix@ = before.push(element@);
            self.docs@ = Seq::empty();
            assert(element_views(self.elements@) =~= self.prefix@);
            assert(flatten(self.docs@, self.prefix@.len() as int) =~= Seq::<Element>::empty());
            assert(self.prefix@ =~= before + seq![element@]);
        }
        span
    }

    /// Closes a span: its header now holds the range of what was written since
    /// it was opened. No other element changes.
    pub fn finish(&mut self, span: OpenSpan)
        requires
            old(self).wf(),
            span.is_open(old(self).prefix()),
        ensures
            0 <= span.index() < old(self).elements().len(),
            final(self).elements() == old(self).elements().update(
                span.index(),
                header(
                    span_doc(span.kind(), old(self).docs()),
                    span.index() + 1,
                    old(self).elements().len() as int,
                ),
            ),
            final(self).wf(),
            final(self).prefix() == span.prefix(),
            final(self).docs() == span.docs() + seq![span_doc(span.kind(), old(self).docs())],
    {
        let ghost views = element_views(self.elements@);
        let ghost body = self.docs@;
        let ghost outer = span.prefix@ + flatten(span.docs@, span.prefix@.len() as int);
        proof {
            lemma_flatten_len(body, self.prefix@.len() as int);
            lemma_flatten_len(span.docs@, span.prefix@.len() as int);
            assert(views.len() == self.elements@.len());
        }
        let end: usize = self.elements.len();
        let element = header_element(
            span.kind,
            RangeRenderElement { start: span.index + 1, end },
        );
        self.elements.set(span.index, element);
        proof {
            let doc = span_doc(span.kind, body);
            let start = span.prefix@.len() as int;
            let docs = span.docs@ + seq![doc];
            let at = start + docs_size(span.docs@);
            assert(docs.drop_last() =~= span.docs@);
            assert(flatten_one(doc, at) =~= seq![element@] + flatten(body, at + 1));
            assert(at == span.index);
            assert(self.prefix@.len() == at + 1);
            assert(views =~= self.prefix@ + flatten(body, at + 1));
            assert(element_views(self.elements@) =~= views.update(at, element@));
            assert(element_views(self.elements@) =~= outer + seq![element@] + flatten(body, at + 1));
            assert(docs.last() == doc);
            assert(flatten(docs, start) == flatten(span.docs@, start) + flatten_one(doc, at));
            self.prefix@ = span.prefix@;
            self.docs@ = docs;
            assert(element_views(self.elements@) =~= self.prefix@ + flatten(docs, start));
        }
    }

    /// Opens an indent.
    pub fn begin_indent(&mut self, level: u16) -> (span: OpenSpan)
        requires
            old(self).wf(),
        ensures
            span.index() == old(self).elements().len(),
            final(self).elements() == old(self).elements().push(
                header(span_doc(SpanKind::Indent { level }, Seq::empty()), 0, 0),
            ),
            final(self).wf(),
            final(self).docs() == Seq::<Doc>::empty(),
            span.kind() == (SpanKind::Indent { level }),
            span.prefix() == old(self).prefix(),
            span.docs() == old(self).docs(),
            span.is_open(final(self).prefix()),
    {
        self.begin(SpanKind::Indent { level })
    }

    /// Opens a group that counts as a whole when the group around it is laid
    /// out.
    pub fn begin_group(&mut self) -> (span: OpenSpan)
        requires
            old(self).wf(),
        ensures
            span.index() == old(self).elements().len(),
            final(self).elements() == old(self).elements().push(
                header(span_doc(SpanKind::Group { fit: GroupParentFit::Full }, Seq::empty()), 0, 0),
            ),
            final(self).wf(),
            final(self).docs() == Seq::<Doc>::empty(),
            span.kind() == (SpanKind::Group { fit: GroupParentFit::Full }),
            span.prefix() == old(self).prefix(),
            span.docs() == old(self).docs(),
            span.is_open(final(self).prefix()),
    {
        self.begin(SpanKind::Group { fit: GroupParentFit::Full })
    }

    /// Opens a group of which only the part before its first line break counts
    /// when the group around it is laid out.
    pub fn begin_group_until_first_line_break(&mut self) -> (span: OpenSpan)
        requires
            old(self).wf(),
        ensures
            span.index() == old(self).elements().len(),
            final(self).elements() == old(self).elements().push(
                header(span_doc(SpanKind::Group { fit: GroupParentFit::UntilFirstLineBreak }, Seq::empty()), 0, 0),
            ),
            final(self).wf(),
            final(self).docs() == Seq::<Doc>::empty(),
            span.kind() == (SpanKind::Group { fit: GroupParentFit::UntilFirstLineBreak }),
            span.prefix() == old(self).prefix(),
            span.docs() == old(self).docs(),
            span.is_open(final(self).prefix()),
    {
        self.begin(SpanKind::Group { fit: GroupParentFit::UntilFirstLineBreak })
    }
}

/// The header of a span of the given kind over the given range.
fn header_element(kind: SpanKind, range: RangeRenderElement) -> (element: RenderElement)
    ensures
        forall|body: Seq<Doc>|
            element@ == header(
                #[trigger] span_doc(kind, body),
                range.start as int,
                range.end as int,
            ),
{
    match kind {
        SpanKind::Indent { level } => RenderElement::Indent { level, child: range },
        SpanKind::Group { fit } => RenderElement::Group { children: range, parent_fit: fit },
        SpanKind::BalancedGroup => RenderElement::BalancedGroup { children: range },
        SpanKind::MultilineBranch => RenderElement::Branch {
            if_single_line: None,
            if_multiline: Some(range),
        },
        SpanKind::SingleLineBranch => RenderElement::Branch {
            if_single_line: Some(range),
            if_multiline: None,
        },
    }
}

} // verus!
