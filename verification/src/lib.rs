//! Assembly of generated source fragments into a single module tree, and
//! resolution of declared symbol names into fully qualified extern paths.
//!
//! The crate works on byte strings (`Vec<u8>`): the text it assembles is
//! opaque except for the ASCII separators it splits and joins on, and byte
//! sequences have a fully specified lexicographic order, which the
//! deterministic output ordering is stated and proved against.

pub mod args;
pub mod bytes;
pub mod fragment;
pub mod symbols;
pub mod tree;
pub mod writer;
