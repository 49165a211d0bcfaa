//! The filesystem-facing value types: what a listing hands back, and the
//! local root it is taken against.

use vstd::prelude::*;

verus! {

/// One listed entry: its path relative to the filesystem root, and whether
/// it is a directory.
pub struct FileEntry {
    pub path: String,
    pub is_dir: bool,
}

/// A filesystem rooted at a local base path; the I/O itself is the
/// caller's.
pub struct LocalFilesystem {
    base_path: String,
}

impl LocalFilesystem {
    /// The root every listed path is relative to.
    pub closed spec fn base_path_spec(&self) -> Seq<char> {
        self.base_path@
    }

    pub fn new(root: String) -> (r: Self)
        ensures
            r.base_path_spec() == root@,
    {
        LocalFilesystem { base_path: root }
    }

    /// The configured base path.
    pub fn base_path(&self) -> (r: &String)
        ensures
            r@ == self.base_path_spec(),
    {
        &self.base_path
    }
}

} // verus!
