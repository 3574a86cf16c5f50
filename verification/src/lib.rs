//! A cursor over immutable text that moves one character at a time in both
//! directions, keeps its byte offset and line number in step, and offers
//! word-by-word and line-by-line traversal on top of those moves.

pub mod cursor;
pub mod text;
pub mod views;
