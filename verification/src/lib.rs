//! The engine of an in-editor terminal, code editor, agent panel and debugger,
//! as plain state and functions over it.
//!
//! Every module here computes: it takes text, numbers and values that describe
//! what the outside world did, and returns what to show or what to do next.
//! Windows, pipes, files and the GPU belong to the program around the library.

pub mod agentview;
pub mod browser;
pub mod clock;
pub mod control;
pub mod conv;
pub mod debugger;
pub mod editops;
pub mod editorview;
pub mod fonts;
pub mod highlight;
pub mod input;
pub mod json;
pub mod mcp;
pub mod names;
pub mod palette;
pub mod panel;
pub mod registry;
pub mod renderer;
pub mod syntax;
pub mod text;
pub mod utf8;
