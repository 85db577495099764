//! The intermediate representation that the formatter writes and the renderer
//! reads: a flat vector of render elements.
//!
//! Elements that span others (indents, groups, branches) store the range of
//! positions of the elements they span. The spanned elements always follow
//! right behind the element that spans them.
use vstd::prelude::*;
use vstd::utf8::encode_utf8;

verus! {

/// A half-open range of byte offsets into the source code.
#[derive(Clone, Copy, Debug, PartialEq, Eq, Structural)]
pub struct RangeSourceBytes {
    pub start_byte: usize,
    pub end_byte: usize,
}

/// A half-open range of positions in the vector of render elements.
#[derive(Clone, Copy, Debug, PartialEq, Eq, Structural)]
pub struct RangeRenderElement {
    pub start: usize,
    pub end: usize,
}

/// How much of a group counts when the group around it decides whether it fits
/// on the current line.
#[derive(Clone, Copy, Debug, PartialEq, Eq, Structural)]
pub enum GroupParentFit {
    /// The whole group counts.
    Full,
    /// Only what stands before the first line break of the group counts.
    UntilFirstLineBreak,
}

/// One instruction for the renderer.
#[derive(Debug, PartialEq, Eq)]
pub enum RenderElement {
    /// Source text that the renderer may trim.
    Text { range: RangeSourceBytes },
    /// Source text that the renderer copies byte for byte.
    UnformattedSource { range: RangeSourceBytes },
    /// Text that stands nowhere in the source.
    TextProducedByFormatter(String),
    /// A fixed piece of punctuation.
    TextStatic(&'static str),
    /// One space.
    Space,
    /// One space if the surrounding group stays on one line, nothing otherwise.
    SpaceSingleLineOnly,
    /// A line break if the surrounding group breaks, nothing otherwise.
    SoftLine,
    /// A line break.
    HardLine,
    /// An empty line.
    BlankLine,
    /// A possible line break of a balanced group.
    BalancedLine,
    /// Makes every surrounding group break.
    ForceBreakingParent,
    /// Indents a range of elements.
    Indent { level: u16, child: RangeRenderElement },
    /// Elements that stay on one line together or break together.
    Group { children: RangeRenderElement, parent_fit: GroupParentFit },
    /// A group that spreads its line breaks evenly.
    BalancedGroup { children: RangeRenderElement },
    /// Elements that only appear in one of the two layouts of the surrounding
    /// group.
    Branch {
        if_single_line: Option<RangeRenderElement>,
        if_multiline: Option<RangeRenderElement>,
    },
}

/// What a render element holds, as mathematical values.
pub enum Element {
    Text { start: int, end: int },
    Unformatted { start: int, end: int },
    /// The UTF-8 bytes of the text.
    Produced { bytes: Seq<u8> },
    Static { text: Seq<char> },
    Space,
    SpaceSingleLineOnly,
    SoftLine,
    HardLine,
    BlankLine,
    BalancedLine,
    ForceBreakingParent,
    Indent { level: int, start: int, end: int },
    Group { fit: GroupParentFit, start: int, end: int },
    BalancedGroup { start: int, end: int },
    Branch { single: Option<(int, int)>, multi: Option<(int, int)> },
}

/// The two ends of an optional range.
pub open spec fn range_ends(range: Option<RangeRenderElement>) -> Option<(int, int)> {
    match range {
        Some(r) => Some((r.start as int, r.end as int)),
        None => None,
    }
}

impl View for RenderElement {
    type V = Element;

    open spec fn view(&self) -> Element {
        match self {
            RenderElement::Text { range } => Element::Text {
                start: range.start_byte as int,
                end: range.end_byte as int,
            },
            RenderElement::UnformattedSource { range } => Element::Unformatted {
                start: range.start_byte as int,
                end: range.end_byte as int,
            },
            RenderElement::TextProducedByFormatter(text) => Element::Produced {
                bytes: encode_utf8(text@),
            },
            RenderElement::TextStatic(text) => Element::Static { text: text@ },
            RenderElement::Space => Element::Space,
            RenderElement::SpaceSingleLineOnly => Element::SpaceSingleLineOnly,
            RenderElement::SoftLine => Element::SoftLine,
            RenderElement::HardLine => Element::HardLine,
            RenderElement::BlankLine => Element::BlankLine,
            RenderElement::BalancedLine => Element::BalancedLine,
            RenderElement::ForceBreakingParent => Element::ForceBreakingParent,
            RenderElement::Indent { level, child } => Element::Indent {
                level: *level as int,
                start: child.start as int,
                end: child.end as int,
            },
            RenderElement::Group { children, parent_fit } => Element::Group {
                fit: *parent_fit,
                start: children.start as int,
                end: children.end as int,
            },
            RenderElement::BalancedGroup { children } => Element::BalancedGroup {
                start: children.start as int,
                end: children.end as int,
            },
            RenderElement::Branch { if_single_line, if_multiline } => Element::Branch {
                single: range_ends(*if_single_line),
                multi: range_ends(*if_multiline),
            },
        }
    }
}

/// What a vector of render elements holds.
pub open spec fn element_views(elements: Seq<RenderElement>) -> Seq<Element> {
    Seq::new(elements.len(), |i: int| elements[i]@)
}

} // verus!
