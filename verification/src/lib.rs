//! A content-addressable loose-object store and format codec in the style of
//! git's low-level object layer: four kinds of records (blob, commit, tree,
//! tag) are encoded to a canonical byte form, addressed by a digest of a
//! length-framed prefix plus that form, compressed, and decoded back exactly.
//!
//! The records and their codec live in [`git_object`], with the folded
//! key-value header grammar in [`header`] and the binary tree-entry grammar
//! (including the canonical entry order) in [`tree`]. Framing, digesting and
//! compression are in [`store`]; digest text handling in [`hexstr`]; history
//! traversal in [`log`]; tag creation in [`tag`]; reference-file parsing in
//! [`show_ref`]. Decoding an encoded record gives the record back exactly:
//! the round-trip guarantee is stated on the decoders themselves, quantified
//! over every constructible record.

pub mod git_config;
pub mod git_object;
pub mod header;
pub mod hexstr;
pub mod log;
pub mod scan;
pub mod show_ref;
pub mod store;
pub mod tag;
pub mod text;
pub mod tree;

use vstd::prelude::*;

verus! {

/// Why a store or codec operation failed. Every failure is terminal for the
/// operation that raised it; nothing is retried or silently repaired.
#[derive(Debug, Clone, PartialEq, Eq, Structural)]
pub enum GitError {
    /// No object is stored under the requested digest.
    NotFound,
    /// The framed header's declared length disagrees with the payload length.
    SizeMismatch,
    /// The framed header names a kind that is not one of the four records.
    UnknownKind,
    /// The payload violates its kind's grammar; `offset` is the byte where
    /// decoding gave up.
    CorruptPayload { offset: usize },
    /// The record cannot be encoded as constructed.
    InvalidRecord,
}

} // verus!
