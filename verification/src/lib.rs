//! A lexer and parser for a tab-indented outline format.
//!
//! The format builds documents out of named constructs, annotations and
//! pass-through content.  Three pieces cooperate:
//!
//! - [`lex::block`] recognizes a fenced block: lines enclosed between two
//!   three-byte runs of a delimiter byte, closed at the indentation of the
//!   surrounding document.
//! - [`node::Node`] is the tree that parsing produces.
//! - [`parse::parse`] folds a stream of classified line tokens into a
//!   forest of nodes, tracking indentation with an explicit scope stack.
//!
//! Indentation is tab-based only.  Every function is specified against a
//! mathematical model of its data; the properties of the scanner and of the
//! parser are stated and proved in their modules.

pub mod lex;
pub mod node;
pub mod parse;

pub use node::Node;
