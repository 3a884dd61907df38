//! Syntax highlighting for the code editor surface.
//!
//! Source text becomes per-logical-line colored spans. Each editor buffer keeps a
//! [`grammar::Highlighter`] that reparses INCREMENTALLY: the previous syntax tree is
//! edited by the delta since the last call and handed back to the parser, so a
//! keystroke re-parses only the changed region instead of the whole file.

pub mod colors;
pub mod delta;
pub mod grammar;
pub mod spans;
