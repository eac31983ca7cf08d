//! Front end for a small schema-definition language: source text describing
//! tables, columns, single inheritance between tables, references and indexes
//! becomes either a checked syntax tree or precisely located diagnostics.
//!
//! - `lexer`: source text to spanned tokens; never fails.
//! - `parser`: tokens to a [`ast::Schema`], or the first syntax error.
//! - `semantic`: the static rules, checked in passes; the first failing pass
//!   gives the diagnostic.
//! - `guarantees`: what a successful check guarantees, stated and proved.
//! - `roundtrip`: writing a schema back out as tokens or text, and the proof
//!   that parsing that gives the schema back.
//! - `position`: line and column of byte offsets, and highlighting tokens.

pub mod ast;
mod text;
pub mod lexer;
pub mod parser;
pub mod semantic;
pub mod guarantees;
pub mod roundtrip;
pub mod position;
