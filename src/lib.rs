//! A compiler for a small timeline language that drives display entities
//! through timer-gated scoreboard commands.
//!
//! Source text is split into buffers at `;`, `{` and `}` (`lexer`), each
//! buffer's leading timing numbers and keyword are recognised and its
//! arguments read (`statements`, `parser`), blocks hand their timing down to
//! what they hold, and the statements become commands (`compiled`).
use vstd::prelude::*;

pub mod compiled;
pub mod config;
pub mod errors;
pub mod file_reader;
pub mod lexer;
pub mod objects;
pub mod parser;
pub mod statements;
pub mod text;
pub mod words;

pub use errors::collect_errors;

verus! {

} // verus!
