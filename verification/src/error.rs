//! Errors shared by the cache implementations.

use vstd::prelude::*;

verus! {

/// Errors emitted by the cache trait and its implementations.
///
/// Both variants carry owned text so the type is `Clone + Eq`.
#[derive(Debug, Clone, PartialEq, Eq)]
pub enum CacheError {
    /// Filesystem I/O failure (read, write, sync, rename, mkdir), with a
    /// description of the failing operation and path.
    Io(String),
    /// An asset id reference (for example inside the recency index) failed
    /// to parse.
    BadAssetId(String),
}

} // verus!
