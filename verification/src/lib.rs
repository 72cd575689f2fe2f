//! A small markup parser: a source string is turned into a tree of text and
//! element nodes by a cursor-based recursive-descent parser.
//!
//! - [`dom`] and [`attrs`] hold the tree and the attributes of an element;
//! - [`grammar`] says, over sequences of characters, what each production
//!   reads, and [`laws`] what follows from that for every input;
//! - [`parser`] holds the parser itself, whose methods are proved to read
//!   what the grammar says, and [`parse`], the entry point;
//! - [`error`] names the ways in which a parse fails;
//! - [`text`] relates characters to the bytes that store them.

pub mod attrs;
pub mod dom;
pub mod error;
pub mod grammar;
pub mod laws;
pub mod parser;
pub mod text;

pub use attrs::AttrMap;
pub use dom::{ElementData, ElementDataView, Node, NodeType, NodeTypeView, NodeView};
pub use error::{Failure, ParseError};
pub use grammar::Cursor;
pub use parser::{parse, Parser};
