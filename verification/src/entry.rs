//! A snapshot of a directory tree, as read from the file system.

use vstd::prelude::*;

verus! {

/// One entry of a directory, with what lies below it.
pub struct DirEntry {
    /// The entry's name within its directory.
    pub name: String,
    /// The entry's path: its directory's path and its name.
    pub path: String,
    /// The entry's canonical absolute path, where it could be resolved.
    pub canonical: Option<String>,
    /// Whether the entry is a directory.
    pub is_dir: bool,
    /// The entries of this directory, in any order. Empty for a file.
    pub children: Vec<DirEntry>,
    /// The system's words where this directory could not be read.
    pub failure: Option<String>,
}

/// A top-level directory to list: the base of its tree.
pub struct RootDir {
    /// The directory itself; its `path` is the path as it was given.
    pub dir: DirEntry,
    /// The lines of the ignore file in this directory; none where the file
    /// is missing or cannot be read.
    pub ignore_lines: Vec<String>,
}

} // verus!
