//! A JSON decoder with a machine-checked contract.
//!
//! [`grammar`] states, as functions over the input bytes, which documents
//! are accepted, what value each one has, and which error and location each
//! refused one gets.  [`parser::Parser`] reads a document one event at a
//! time, keeping the open arrays and objects on a heap stack rather than the
//! call stack; [`de::parse_json`] drives it to build a [`value::JsonValue`].
//! Both are proved to agree with [`grammar::document`].  [`laws`],
//! [`shift`], [`whitespace`], [`closing`], [`numeral`], [`lexical`] and [`standard`]
//! prove properties of the grammar itself: what the depth limit does, how
//! whitespace and position shifts act, in which order objects close, which
//! bytes a number takes, and how strings relate to JSON's string syntax and
//! to standard UTF-8.
pub mod closing;
pub mod cursor;
pub mod de;
pub mod error;
pub mod grammar;
pub mod lexical;
pub mod laws;
pub mod number;
pub mod numeral;
pub mod parser;
pub mod progress;
pub mod shift;
pub mod standard;
pub mod strings;
pub mod text;
pub mod trampoline;
pub mod value;
pub mod whitespace;
