//! Lexer for a small assembly-like language.
//!
//! The crate is organised leaf-first: a generic bidirectional scanning
//! cursor with consume/undo history (`cursor`), source positions
//! (`position`), the token model (`token`), escape decoding (`escape`),
//! and the lexer entry points (`lexer`).

pub mod ast;
pub mod cursor;
pub mod driver;
pub mod escape;
pub mod lexer;
pub mod position;
pub mod token;
