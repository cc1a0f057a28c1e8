//! An incremental line-buffer model of a text document that keeps the hex
//! color literals of each line in step with editor changes.
pub mod color;
pub mod document;
pub mod text;
pub mod types;
