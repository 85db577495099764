pub mod document;
pub mod document_laws;
pub mod formatter;
pub mod node_kind;
pub mod parser;
pub mod renderer;
pub mod reorder;
pub mod string_literal;
pub mod structure_laws;
pub mod syntax_tree;
pub mod text;
pub mod tree_reader;
pub mod verify_structure;
pub mod writer;
