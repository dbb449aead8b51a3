//! The counts of one listed directory tree.

use vstd::prelude::*;

verus! {

/// How many directories and files were listed under one top-level path.
pub struct FileStats {
    pub dirs: usize,
    pub files: usize,
}

impl FileStats {
    /// Nothing counted yet.
    pub fn new() -> (s: Self)
        ensures
            s.dirs == 0,
            s.files == 0,
    {
        Self { dirs: 0, files: 0 }
    }
}

} // verus!
