//! Positions, ranges, colors and change events as the document model uses
//! them: plain values, with columns counted in UTF-16 code units.
use vstd::prelude::*;

verus! {

/// A place in a document: a 0-based line and a 0-based UTF-16 column.
#[derive(Clone, Copy, Debug, PartialEq, Eq)]
pub struct Position {
    pub line: usize,
    pub character: usize,
}

/// A stretch of a document; `end` is exclusive.
#[derive(Clone, Copy, Debug, PartialEq, Eq)]
pub struct Range {
    pub start: Position,
    pub end: Position,
}

/// A color as four 8-bit channels; a channel value `v` stands for the
/// intensity `v / 255`.
#[derive(Clone, Copy, Debug, PartialEq, Eq)]
pub struct Color {
    pub red: u8,
    pub green: u8,
    pub blue: u8,
    pub alpha: u8,
}

/// A color literal found in a document, with the range it covers.
#[derive(Clone, Copy, Debug, PartialEq, Eq)]
pub struct ColorInformation {
    pub range: Range,
    pub color: Color,
}

/// One change to a document: the text that replaces `range`, or the whole
/// document where there is no range.
#[derive(Debug)]
pub struct TextDocumentContentChangeEvent {
    pub range: Option<Range>,
    /// Length of the replaced range as the editor reported it; not used.
    pub range_length: Option<u32>,
    pub text: String,
}

} // verus!
