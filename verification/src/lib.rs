//! Execution ABI for sandboxed smart contracts: a deterministic binary codec
//! for contract state and call arguments, derivation of stable entry-point
//! selectors, the calling convention of the boundary exports, and the
//! per-transaction call dispatcher.

use vstd::prelude::*;

pub mod address;
pub mod base;
pub mod context;
pub mod entry;
pub mod selector;
pub mod token;
pub mod hash;
pub mod ordered;
pub mod schema;
pub mod intbytes;
pub mod serialization;

verus! {

/// A fatal decoding failure. Any such failure aborts the enclosing call:
/// there is no partial value and no recovery.
#[derive(Clone, Copy, Debug, PartialEq, Eq, Structural)]
pub enum DecodeError {
    /// The input ended before the value was complete.
    Truncated,
    /// A length or count field cannot describe a real collection.
    MalformedLength,
    /// A byte-string marked as text is not valid UTF-8.
    InvalidUtf8,
    /// A map carried the same key twice.
    DuplicateMapKey,
    /// A set element was not strictly greater than its predecessor.
    MisorderedSetEntry,
    /// A tagged union carried a discriminant no variant answers to.
    UnknownDiscriminant,
}

} // verus!
