//! A parser for textual class diagrams.
//!
//! [`parser::parse`] turns a document into a [`types::Diagram`]: the
//! namespaces, the classes with their members, and the relations that the
//! document declares.
//!
//! The work is done in three steps, each a function with a contract over a
//! mathematical model of its data:
//!
//! - [`MermaidParser`] matches the document against the grammar of
//!   [`grammar`] and builds its match tree ([`tree`]), or says where the
//!   document stops matching;
//! - the builders of [`parser`] turn the statements of the tree into
//!   classes, members and relations;
//! - the assembler of [`parser`] applies the statements, in order, to a
//!   diagram ([`types`]) that starts empty.
//!
//! What holds of every document, tree and diagram is stated and proved in
//! [`laws`], [`tree_laws`], [`layout_laws`] and [`document_laws`].

pub mod document_laws;
pub mod grammar;
pub mod laws;
pub mod layout_laws;
pub mod name_map;
pub mod parser;
pub mod recognizer;
pub mod text;
pub mod tree;
pub mod tree_laws;
pub mod types;

pub use crate::recognizer::MermaidParser;
