//! The records that travel through the pipeline.

use vstd::prelude::*;

verus! {

/// A regular file found under the scanned root: its path and its length in bytes.
#[derive(Debug, PartialEq, Eq)]
pub struct FileEntry {
    pub path: String,
    pub size: u64,
}

impl FileEntry {
    /// An entry for the file at `path` that is `size` bytes long.
    pub fn new(path: String, size: u64) -> (entry: FileEntry)
        ensures
            entry.path == path,
            entry.size == size,
    {
        FileEntry { path, size }
    }
}

/// The lengths of `entries`, position by position.
pub open spec fn sizes_of(entries: Seq<FileEntry>) -> Seq<u64> {
    Seq::new(entries.len(), |i: int| entries[i].size)
}

} // verus!
