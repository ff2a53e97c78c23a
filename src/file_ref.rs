use vstd::prelude::*;

verus! {

/// A filesystem entry: its inode number, which identifies it, and the path
/// at which it was last seen, which does not.
///
/// Inode numbers are unique only within one filesystem; entries on two
/// mounted volumes may share one.
#[derive(Debug, Clone, Default)]
pub struct FileRef {
    pub file_path: String,
    pub inode: u64,
}

impl FileRef {
    pub fn new(file_path: String, inode: u64) -> (r: FileRef)
        ensures
            r.file_path@ == file_path@,
            r.inode == inode,
    {
        FileRef { file_path, inode }
    }

    /// Whether two references denote the same logical record.
    pub fn same_entry(&self, other: &FileRef) -> (r: bool)
        ensures
            r == (self.inode == other.inode),
    {
        self.inode == other.inode
    }
}


} // verus!
