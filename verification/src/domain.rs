//! Domain identifiers and inode records shared by the catalog, the inode
//! allocator and the block store.
use vstd::prelude::*;

verus! {

/// Identifier of a file-system inode.
#[derive(Debug, Clone, Copy, PartialEq, Eq, Hash, PartialOrd, Ord, Structural)]
pub struct InodeId(pub u64);

/// Kind of a file-system object.
#[derive(Debug, Clone, Copy, PartialEq, Eq, Hash, Structural)]
pub enum InodeKind {
    File,
    Directory,
    Symlink,
}

/// A file-system object: identifier, kind, absolute path and size in bytes.
#[derive(Debug, PartialEq, Eq)]
pub struct Inode {
    pub id: InodeId,
    pub kind: InodeKind,
    pub path: String,
    pub size: usize,
}

/// Abstract value of an inode.
pub struct InodeView {
    pub id: u64,
    pub kind: InodeKind,
    pub path: Seq<char>,
    pub size: usize,
}

impl View for Inode {
    type V = InodeView;

    open spec fn view(&self) -> InodeView {
        InodeView { id: self.id.0, kind: self.kind, path: self.path@, size: self.size }
    }
}

impl Clone for Inode {
    fn clone(&self) -> (r: Self)
        ensures
            r@ == self@,
    {
        Inode { id: self.id, kind: self.kind, path: self.path.clone(), size: self.size }
    }
}

impl Inode {
    /// A new inode of size zero.
    pub fn new(id: InodeId, kind: InodeKind, path: String) -> (r: Self)
        ensures
            r.id == id,
            r.kind == kind,
            r.path == path,
            r.size == 0,
    {
        Inode { id, kind, path, size: 0 }
    }
}

} // verus!
