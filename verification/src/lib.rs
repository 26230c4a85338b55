//! A parser for directory documents in the generic item format.
//!
//! A document is a sequence of items. Each item is a line that holds a
//! keyword and its arguments, followed, where the item has one, by an
//! object: lines of base64 text between a line `-----BEGIN label-----` and
//! a line `-----END label-----`.
//!
//! [`document::Document::parse_str`] parses a text in two steps:
//! [`recognizer::parse`] holds the text to the grammar and hands out its
//! parse tree, and [`document::Document::parse_token`] builds the document
//! from the tree, decoding the objects on the way.
//!
//! - [`charset`]: the classes of bytes that the grammar tells apart;
//! - [`grammar`]: the grammar, as functions that find the pieces of an input;
//! - [`shape`]: the grammar as conditions on those pieces, and the proof
//!   that both say the same;
//! - [`tree`]: the parse tree;
//! - [`recognizer`]: from a text to its parse tree;
//! - [`decoding`]: base64 decoding;
//! - [`document`]: documents and items, and how a parse tree becomes one;
//! - [`text`]: pieces of a string by byte positions;
//! - [`theorems`]: what holds of every input.

pub mod charset;
pub mod decoding;
pub mod document;
pub mod grammar;
pub mod recognizer;
pub mod shape;
pub mod text;
pub mod theorems;
pub mod tree;
