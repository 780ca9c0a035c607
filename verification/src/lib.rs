//! A single-pass compiler from a constrained TeX-like markup to an
//! addressable document tree.
//!
//! Text is read as paragraphs, set apart by blank lines, of text runs,
//! commands and math regions. Each of these becomes a node of an arena
//! under a key of its own, and each node gets a label that depends on
//! its content alone, under which it is handed on.
//!
//! The functions are verified against contracts over plain values: what
//! a text parses to is said by `document::parsed`, what is handed on by
//! `outside::projected`.

pub mod digest;
pub mod document;
pub mod grammar;
pub mod key;
pub mod lines;
pub mod math_expr;
pub mod node;
pub mod outside;
pub mod parser;
pub mod result_map;
pub mod tex_char;
pub mod tex_chars;
pub mod text;

pub use outside::parse_paragraphs_to_json;
pub use outside::ParseError;
