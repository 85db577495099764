//! The plan by which the declarations of a script are reordered.
use vstd::prelude::*;

verus! {

/// The groups of declarations that a plan sorts.
#[derive(Clone, Copy, Debug, PartialEq, Eq, Structural)]
pub enum DeclarationKind {
    ClassAnnotation,
    ClassName,
    Extends,
    Docstring,
    Signal,
    Enum,
    Constant,
    Variable,
    Method,
    InnerClass,
}

/// One declaration, with the siblings that move together with it. Children are
/// named by their index among the children of the root.
#[derive(Debug)]
pub struct ReorderItem {
    pub classification: DeclarationKind,
    pub child_index: usize,
    /// The index of the only part of the declaration to write, if it is not
    /// written whole.
    pub sub_child: Option<usize>,
    /// True for a `class_name` statement whose `extends` part is written as an
    /// item of its own.
    pub split_extends: bool,
    pub has_blank_line_before: bool,
    pub child_indices_attached_before_declaration: Vec<usize>,
    pub child_indices_attached_after_declaration: Vec<usize>,
}

/// The declarations of a script, in the order in which to write them.
#[derive(Debug)]
pub struct ReorderPlan {
    pub items: Vec<ReorderItem>,
}

} // verus!
