use vstd::prelude::*;

use crate::fs::{Name, NodeId};

verus! {

/// Why a filesystem operation failed.
#[derive(Clone, Copy, Debug, PartialEq, Eq, Structural)]
pub enum FsError {
    NotFound,
    WrongNodeKind,
    Corrupt,
    Unsupported,
    Allocation,
    Io,
}

/// Why a path operation failed.
#[derive(Clone, Copy, Debug, PartialEq, Eq, Structural)]
pub enum VfsError {
    Fs(FsError),
    InvalidPath,
    NotDirectory,
    NotRegularFile,
    Allocation,
}

/// A current working directory, as its canonical components from the root.
#[derive(Clone, Debug, PartialEq, Eq)]
pub struct Cwd {
    pub components: Vec<Name>,
}

/// A resolved path: the node it names and its canonical components.
#[derive(Clone, Debug, PartialEq, Eq)]
pub struct ResolvedPath {
    pub node: NodeId,
    pub components: Vec<Name>,
}

impl Cwd {
    /// The root directory.
    pub fn root() -> (r: Self)
        ensures
            r.components@.len() == 0,
    {
        Self { components: Vec::new() }
    }
}

} // verus!
