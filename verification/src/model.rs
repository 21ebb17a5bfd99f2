//! The directory tree as a mathematical value, and what each operation of
//! the workspace does to it.
//!
//! A directory is a map from names to nodes; a node is a file with its bytes,
//! or a directory. An address is resolved name by name from the root.

use crate::error::StoreError;
use crate::order::name_lt;
use crate::path::valid_segment;
use vstd::prelude::*;

verus! {

/// A node of the tree.
pub ghost enum NodeModel {
    /// A file and its content.
    File(Seq<u8>),
    /// A directory and the nodes in it, by name.
    Dir(Map<Seq<char>, NodeModel>),
}

/// A directory: its nodes, by name.
pub type DirModel = Map<Seq<char>, NodeModel>;

/// What can be stored at an address.
#[derive(Clone, Copy, Debug, PartialEq, Eq, Structural)]
pub enum NodeKind {
    File,
    Directory,
}

/// What an address holds, seen without the content of directories.
pub ghost enum Stored {
    /// A file with these bytes.
    File(Seq<u8>),
    /// A directory.
    Directory,
}

impl NodeModel {
    /// The kind of the node.
    pub open spec fn kind(self) -> NodeKind {
        match self {
            NodeModel::File(_) => NodeKind::File,
            NodeModel::Dir(_) => NodeKind::Directory,
        }
    }

    /// The node without the content of a directory.
    pub open spec fn stored(self) -> Stored {
        match self {
            NodeModel::File(bytes) => Stored::File(bytes),
            NodeModel::Dir(_) => Stored::Directory,
        }
    }
}

/// The node at `path` below the directory `dir`, if there is one. The empty
/// path is `dir` itself.
pub open spec fn lookup(dir: DirModel, path: Seq<Seq<char>>) -> Option<NodeModel>
    decreases path.len(),
{
    if path.len() == 0 {
        Some(NodeModel::Dir(dir))
    } else if !dir.contains_key(path[0]) {
        None
    } else {
        match dir[path[0]] {
            NodeModel::File(bytes) => if path.len() == 1 {
                Some(NodeModel::File(bytes))
            } else {
                None
            },
            NodeModel::Dir(sub) => lookup(sub, path.drop_first()),
        }
    }
}

/// What `path` holds below `dir`: a file, a directory, or nothing.
pub open spec fn stored_at(dir: DirModel, path: Seq<Seq<char>>) -> Option<Stored> {
    match lookup(dir, path) {
        Some(node) => Some(node.stored()),
        None => None,
    }
}

/// Resolves `path` to a file. The walk fails with `NotFound` at the first
/// name that is absent, with `NotADirectory` at a file that is not the last
/// name, and with `NotAFile` if the whole path is a directory.
pub open spec fn resolve_file(dir: DirModel, path: Seq<Seq<char>>) -> Result<
    Seq<u8>,
    StoreError,
>
    decreases path.len(),
{
    if path.len() == 0 {
        Err(StoreError::NotAFile)
    } else if !dir.contains_key(path[0]) {
        Err(StoreError::NotFound)
    } else {
        match dir[path[0]] {
            NodeModel::File(bytes) => if path.len() == 1 {
                Ok(bytes)
            } else {
                Err(StoreError::NotADirectory)
            },
            NodeModel::Dir(sub) => resolve_file(sub, path.drop_first()),
        }
    }
}

/// Resolves `path` to a directory. The walk fails with `NotFound` at the
/// first name that is absent and with `NotADirectory` at a file.
pub open spec fn resolve_dir(dir: DirModel, path: Seq<Seq<char>>) -> Result<DirModel, StoreError>
    decreases path.len(),
{
    if path.len() == 0 {
        Ok(dir)
    } else if !dir.contains_key(path[0]) {
        Err(StoreError::NotFound)
    } else {
        match dir[path[0]] {
            NodeModel::File(_) => Err(StoreError::NotADirectory),
            NodeModel::Dir(sub) => resolve_dir(sub, path.drop_first()),
        }
    }
}

/// The node `leaf` below the chain of directories `path`: `leaf` itself for
/// the empty path, else a directory that holds nothing but the rest of the
/// chain under the first name.
pub open spec fn fresh(path: Seq<Seq<char>>, leaf: NodeModel) -> NodeModel
    decreases path.len(),
{
    if path.len() == 0 {
        leaf
    } else {
        NodeModel::Dir(Map::empty().insert(path[0], fresh(path.drop_first(), leaf)))
    }
}

/// `dir` after every missing directory along `path` was made. Fails with
/// `PathCollision`, and makes nothing, if a name on the way is a file.
pub open spec fn make_dirs(dir: DirModel, path: Seq<Seq<char>>) -> Result<DirModel, StoreError>
    decreases path.len(),
{
    if path.len() == 0 {
        Ok(dir)
    } else if !dir.contains_key(path[0]) {
        Ok(dir.insert(path[0], fresh(path.drop_first(), NodeModel::Dir(Map::empty()))))
    } else {
        match dir[path[0]] {
            NodeModel::File(_) => Err(StoreError::PathCollision),
            NodeModel::Dir(sub) => match make_dirs(sub, path.drop_first()) {
                Ok(made) => Ok(dir.insert(path[0], NodeModel::Dir(made))),
                Err(e) => Err(e),
            },
        }
    }
}

/// `dir` after the file at `path` was given the content `bytes`, a file and
/// its missing parent directories being made if need be. Fails with
/// `PathCollision`, and changes nothing, if `path` is a directory or a name
/// on the way is a file.
pub open spec fn put_file(
    dir: DirModel,
    path: Seq<Seq<char>>,
    bytes: Seq<u8>,
) -> Result<DirModel, StoreError>
    decreases path.len(),
{
    if path.len() == 0 {
        Err(StoreError::PathCollision)
    } else if !dir.contains_key(path[0]) {
        Ok(dir.insert(path[0], fresh(path.drop_first(), NodeModel::File(bytes))))
    } else {
        match dir[path[0]] {
            NodeModel::File(_) => if path.len() == 1 {
                Ok(dir.insert(path[0], NodeModel::File(bytes)))
            } else {
                Err(StoreError::PathCollision)
            },
            NodeModel::Dir(sub) => match put_file(sub, path.drop_first(), bytes) {
                Ok(made) => Ok(dir.insert(path[0], NodeModel::Dir(made))),
                Err(e) => Err(e),
            },
        }
    }
}

/// `dir` after a file was reserved at `path`: a file that is there keeps its
/// content, a missing one is made empty together with its missing parent
/// directories. Fails as `put_file` does.
pub open spec fn reserve_file(dir: DirModel, path: Seq<Seq<char>>) -> Result<DirModel, StoreError> {
    if resolve_file(dir, path) is Ok {
        Ok(dir)
    } else {
        put_file(dir, path, Seq::empty())
    }
}

/// `dir` after the file at `path` was removed. Fails as `resolve_file` does,
/// and removes nothing then.
pub open spec fn remove_file(dir: DirModel, path: Seq<Seq<char>>) -> Result<DirModel, StoreError>
    decreases path.len(),
{
    if path.len() == 0 {
        Err(StoreError::NotAFile)
    } else if !dir.contains_key(path[0]) {
        Err(StoreError::NotFound)
    } else {
        match dir[path[0]] {
            NodeModel::File(_) => if path.len() == 1 {
                Ok(dir.remove(path[0]))
            } else {
                Err(StoreError::NotADirectory)
            },
            NodeModel::Dir(sub) => match remove_file(sub, path.drop_first()) {
                Ok(left) => Ok(dir.insert(path[0], NodeModel::Dir(left))),
                Err(e) => Err(e),
            },
        }
    }
}

/// The names of `listing` stand in the strict order of names.
pub open spec fn ascending(listing: Seq<(Seq<char>, NodeKind)>) -> bool {
    forall|i: int, j: int|
        0 <= i < j < listing.len() ==> name_lt(#[trigger] listing[i].0, #[trigger] listing[j].0)
}

/// Every name of `listing` is one that can stand in an address, so that it
/// can be joined to the address of the directory that was listed.
pub open spec fn joinable(listing: Seq<(Seq<char>, NodeKind)>) -> bool {
    forall|i: int| 0 <= i < listing.len() ==> valid_segment(#[trigger] listing[i].0)
}

/// `listing` names every node of `dir` once, each with its kind, in the
/// order of names.
pub open spec fn is_listing(dir: DirModel, listing: Seq<(Seq<char>, NodeKind)>) -> bool {
    &&& ascending(listing)
    &&& forall|i: int|
        0 <= i < listing.len() ==> dir.contains_key(#[trigger] listing[i].0) && dir[listing[i].0].kind()
            == listing[i].1
    &&& forall|name: Seq<char>| #[trigger]
        dir.contains_key(name) ==> exists|i: int| 0 <= i < listing.len() && #[trigger] listing[i].0 == name
}

/// What an operation that changes the tree reports, held against what the
/// model says of it: on success the tree is the one that the model gives, on
/// failure the error is the model's and the tree is as before.
pub open spec fn follows(
    outcome: Result<DirModel, StoreError>,
    before: DirModel,
    after: DirModel,
    reported: Result<(), StoreError>,
) -> bool {
    match reported {
        Ok(_) => outcome == Ok::<DirModel, StoreError>(after),
        Err(e) => outcome == Err::<DirModel, StoreError>(e) && after == before,
    }
}

/// The error is one that resolving an address to a file can give.
pub open spec fn file_failure(e: StoreError) -> bool {
    e == StoreError::NotFound || e == StoreError::NotAFile || e == StoreError::NotADirectory
}

/// The error is one that resolving an address to a directory can give.
pub open spec fn dir_failure(e: StoreError) -> bool {
    e == StoreError::NotFound || e == StoreError::NotADirectory
}

} // verus!
