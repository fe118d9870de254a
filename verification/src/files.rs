//! The shape of one entry reported by the root-scoped file browser.
//!
//! The browsing itself — canonicalization, the containment check
//! against the declared root, and the directory walk — is I/O at the
//! caller's edge.
use vstd::prelude::*;

verus! {

/// One file-system entry under the browsed root.
#[derive(Clone)]
pub struct FsEntry {
    pub name: String,
    pub path: String,
    pub is_dir: bool,
    /// Size in bytes; zero for directories.
    pub size: u64,
}

} // verus!
