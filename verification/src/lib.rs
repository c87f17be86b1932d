//! Grid markup: a small markup language in which a document is a single
//! element of the form `~tag(key: value, ...){ ... }`, whose content mixes
//! raw text runs with nested elements.
//!
//! [`parser::parse_str`] turns an input string into a [`node::Node`] tree.
//! The tree is zero-copy: every text run and every attribute key or value is
//! a byte slice borrowed from the input, so the tree cannot outlive it.
//!
//! The meaning of a parse is fixed by a specification-level parser over the
//! input's byte sequence; the executable parser returns exactly its result,
//! success and failure alike.

pub mod lex;
pub mod node;
pub mod parser;

pub use node::{ElementKind, Node, SpecNode};
pub use parser::{parse_str, GridParser, ParseError};
