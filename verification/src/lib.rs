//! Positions and ranges in source text: a cursor that scans a source
//! character by character and keeps line, column and indentation, and spans
//! of bytes that are taken at a cursor, merged, cut and shown.
pub mod chars;
pub mod cursor;
pub mod excerpt;
pub mod number;
pub mod position;
pub mod source;
pub mod span;
pub mod text;

pub use cursor::Cursor;
pub use source::Source;
pub use span::{HasSpan, Span};
