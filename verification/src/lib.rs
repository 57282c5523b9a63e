//! Streaming tokenizer for tag-delimited byte streams.
//!
//! The engine consumes input in arbitrary-sized chunks, locates the marker
//! bytes `<`, `>`, `"` and `'`, tracks tag-open and quote state across chunk
//! boundaries, and reports opening tags (with their attributes), closing tags
//! and comments to a caller-supplied sink.

pub mod classify;
pub mod model;
pub mod parser;
pub mod tags;
