//! The multi-line text box: the document and its caret, the edit history, editing,
//! and what the box shows around the text.

pub mod doc;
pub mod edit;
pub mod flat;
pub mod gutter;
pub mod history;
pub mod hunks;
pub mod keys;
pub mod lines;
pub mod look;
pub mod popup;
