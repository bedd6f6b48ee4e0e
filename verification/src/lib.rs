//! Usage-based type inference for untyped JavaScript sources.
//!
//! The crate takes a source text with its syntax tree, looks at how every
//! binding is used and records textual insertions that turn the text into
//! annotated TypeScript. Parsing is the caller's part: the tree comes in as
//! a table of rows.
//! The bytes of the source are never rewritten: every change is an insertion at a
//! byte offset of the unchanged source.

pub mod naming;
pub mod parser;
pub mod resolver;
pub mod syntax;
pub mod text_editor;
pub mod type_definition;
pub mod usage;
