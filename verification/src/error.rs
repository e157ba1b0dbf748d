//! The error kinds that the store and its codec surface to callers.

use vstd::prelude::*;

verus! {

/// Why an operation was rejected. A rejected operation leaves the store as it was.
#[derive(Clone, Copy, Debug, PartialEq, Eq)]
pub enum Error {
    /// Reserved: no operation of this crate returns it.
    NoneValue,
    /// The id counter has reached the largest id and cannot advance.
    StorageOverflow,
    /// The caller is not a signed account.
    BadOrigin,
    /// The id to insert under already holds an entry.
    Conflict,
    /// No entry is stored under the id.
    NotFound,
    /// The bytes are truncated, carry an unknown content tag, or have bytes left over.
    DecodeError,
}

} // verus!
