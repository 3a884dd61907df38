//! The debugger's side of a session with a managed runtime: what a stop shows,
//! which breakpoints are armed, what the panes list and how keys move in them.
//!
//! The connection to the runtime and the window belong to the program around the
//! library; they report what happened and carry out what is asked for here.

pub mod discovery;
pub mod inspect;
pub mod source;
pub mod vars;
pub mod view;
pub mod tree;
pub mod store;
pub mod session;
