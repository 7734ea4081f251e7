//! The errors with which ingestion rejects a document.

use vstd::prelude::*;

verus! {

/// Why a document cannot be taken into the merge tree.
#[derive(Debug, PartialEq, Eq)]
pub enum SchemaError {
    /// A mapping of the named file has a key that is no string.
    MalformedKey { file: String },
    /// The named file gives a leaf where other files gave a mapping, or a
    /// mapping where they gave a leaf. `path` holds the keys that lead from
    /// the root to the place of the conflict.
    TypeConflict { file: String, path: Vec<String> },
}

} // verus!
