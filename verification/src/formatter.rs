//! Decides how a script is laid out.
//!
//! The formatter walks a syntax tree and writes render elements: text, spaces,
//! possible and definite line breaks, and spans that group or indent others.
//! Which of the possible line breaks are taken is up to the renderer, which
//! knows how long lines may be.
use vstd::prelude::*;

use crate::document::flatten;
use crate::formatter::source::{process_source, source_docs};
use crate::parser::ParseInput;
use crate::renderer::{element_views, RenderElement};
use crate::writer::ElementWriter;

pub mod annotations;
pub mod bodies;
pub mod breaks;
pub mod chains;
pub mod completeness;
pub mod containers;
pub mod elements;
pub mod expressions;
pub mod faithful;
pub mod independence;
pub mod lambdas;
pub mod laws;
pub mod likeness;
pub mod line_breaks;
pub mod links;
pub mod nodes;
pub mod operations;
pub mod operators;
pub mod parentheses;
pub mod plans;
pub mod provenance;
pub mod queries;
pub mod regions;
pub mod reordering;
pub mod rows;
pub mod rules;
pub mod separators;
pub mod source;
pub mod spacing;
pub mod statements;
pub mod tokens;
pub mod top_level;
pub mod trailing_commas;
pub mod uniqueness;
pub mod writes;

verus! {

/// Fills `render_elements` with the layout of a script. What it held before is
/// gone.
pub fn build_formatter_intermediate_representation(
    input: &ParseInput,
    render_elements: &mut Vec<RenderElement>,
)
    requires
        input.wf(),
    ensures
        element_views(final(render_elements)@) == flatten(source_docs(*input), 0),
{
    let mut buffer: Vec<RenderElement> = Vec::new();
    std::mem::swap(render_elements, &mut buffer);
    let mut writer = ElementWriter::with_buffer(buffer);
    process_source(input, &mut writer);
    *render_elements = writer.into_elements();
}

} // verus!
