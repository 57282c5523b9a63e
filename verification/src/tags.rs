//! The event payloads handed to a sink.
//!
//! Every payload owns its bytes, copied out of the engine's input buffer when
//! the event fires.  Attribute values that were quoted keep their enclosing
//! quote characters verbatim.

use vstd::prelude::*;

verus! {

/// A doctype declaration.  Recognition of doctypes is deliberately left
/// unimplemented: the engine never produces this payload, but a sink may
/// accept it.
#[derive(Debug, PartialEq, Eq)]
pub struct DoctypeTag {
    pub value: Vec<u8>,
    pub attrs: Vec<(Vec<u8>, Option<Vec<u8>>)>,
}

/// A comment: the bytes between `<!--` and the terminating unquoted `>`.
#[derive(Debug, PartialEq, Eq)]
pub struct CommentTag {
    pub value: Vec<u8>,
}

/// An opening tag: its name and its attributes in order of discovery.
/// Duplicate attribute names are kept as separate entries.
#[derive(Debug, PartialEq, Eq)]
pub struct OpeningTag {
    pub value: Vec<u8>,
    pub attrs: Vec<(Vec<u8>, Option<Vec<u8>>)>,
}

/// A closing tag: its name.
#[derive(Debug, PartialEq, Eq)]
pub struct ClosingTag {
    pub value: Vec<u8>,
}

/// A run of plain text between tags.  The engine does not track text spans,
/// so it never produces this payload; it stands here for sinks that do.
#[derive(Debug, PartialEq, Eq)]
pub struct Text {
    pub value: Vec<u8>,
}

/// The mathematical value of one attribute entry.
pub open spec fn attr_model(a: (Vec<u8>, Option<Vec<u8>>)) -> (Seq<u8>, Option<Seq<u8>>) {
    (
        a.0@,
        match a.1 {
            Some(v) => Some(v@),
            None => None,
        },
    )
}

/// The mathematical value of an attribute list.
pub open spec fn attrs_model(s: Seq<(Vec<u8>, Option<Vec<u8>>)>) -> Seq<
    (Seq<u8>, Option<Seq<u8>>),
> {
    s.map_values(|a: (Vec<u8>, Option<Vec<u8>>)| attr_model(a))
}

} // verus!
