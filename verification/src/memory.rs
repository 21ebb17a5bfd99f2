//! The workspace as a shared handle: a directory tree behind a lock.
//!
//! Every handle that was cloned from one another serves the same tree. An
//! operation takes the lock, works on the tree as a whole, and gives the
//! lock back: reading operations share the lock, changing ones hold it
//! alone, so no operation ever sees half of another. Since another handle
//! may change the tree between two operations, the contracts here state of
//! an answer what holds of the tree at any moment; what an operation does to
//! a given tree is stated on `DirectoryTree`.

use crate::capability::FilesystemCapability;
use crate::error::StoreError;
use crate::laws::{
    lemma_make_dirs_succeeds, lemma_put_file_succeeds, lemma_remove_file_resolves,
    lemma_resolve_dir_failure, lemma_resolve_file,
};
use crate::model::{ascending, dir_failure, file_failure, joinable, DirModel};
use crate::path::PathKey;
use crate::stream::{ReadableStream, WritableStream};
use crate::tree::{listing, DirItem, DirectoryTree};
use std::sync::Arc;
use vstd::prelude::*;
use vstd::rwlock::{RwLock, RwLockPredicate};

verus! {

/// What the lock keeps true of the tree in it: the tree is well-formed.
pub struct TreeInvariant;

impl RwLockPredicate<DirectoryTree> for TreeInvariant {
    open spec fn inv(self, tree: DirectoryTree) -> bool {
        tree.wf()
    }
}

/// A handle to a directory tree that is shared by all clones of the handle.
pub struct MemoryFilesystem {
    root: Arc<RwLock<DirectoryTree, TreeInvariant>>,
}

/// `Arc::clone` on the lock of a workspace: the returned pointer leads to
/// the allocation that `root` leads to, so it is the same lock.
#[verifier::external_body]
fn share(root: &Arc<RwLock<DirectoryTree, TreeInvariant>>) -> (r: Arc<
    RwLock<DirectoryTree, TreeInvariant>,
>)
    ensures
        r == *root,
{
    Arc::clone(root)
}

impl Clone for MemoryFilesystem {
    /// Another handle to the same tree.
    fn clone(&self) -> (r: Self)
        ensures
            r == *self,
    {
        MemoryFilesystem { root: share(&self.root) }
    }
}

impl Default for MemoryFilesystem {
    /// A handle to a new tree that holds nothing but its root.
    fn default() -> (fs: Self) {
        MemoryFilesystem::new()
    }
}

impl MemoryFilesystem {
    /// A handle to a new tree that holds nothing but its root.
    pub fn new() -> (fs: MemoryFilesystem) {
        MemoryFilesystem { root: Arc::new(RwLock::new(DirectoryTree::new(), Ghost(TreeInvariant))) }
    }

    /// Tells whether `path` is a file or a directory at this moment. The
    /// root always is.
    pub fn contains(&self, path: &PathKey) -> (r: bool)
        ensures
            path@.len() == 0 ==> r,
    {
        let guard = self.root.acquire_read();
        let r = guard.borrow().contains(path);
        guard.release_read();
        r
    }

    /// The size in bytes that the file at `path` has at this moment. Fails
    /// with `NotFound` if nothing is there, with `NotAFile` if a directory is
    /// there, with `NotADirectory` if a name on the way is a file.
    pub fn file_size(&self, path: &PathKey) -> (r: Result<u64, StoreError>)
        ensures
            r matches Err(e) ==> file_failure(e),
            path@.len() == 0 ==> r == Err::<u64, StoreError>(StoreError::NotAFile),
    {
        let guard = self.root.acquire_read();
        let tree = guard.borrow();
        proof {
            lemma_resolve_file(tree@, path@);
        }
        let r = tree.file_size(path);
        guard.release_read();
        r
    }

    /// Makes every missing directory along `path`. Fails with
    /// `PathCollision`, and makes nothing, if a name of `path` is a file.
    pub fn create_dir_all(&self, path: &PathKey) -> (r: Result<(), StoreError>)
        ensures
            r matches Err(e) ==> e == StoreError::PathCollision,
            path@.len() == 0 ==> r is Ok,
    {
        let (mut tree, guard) = self.root.acquire_write();
        proof {
            lemma_make_dirs_succeeds(tree@, path@);
        }
        let r = tree.create_dir_all(path);
        guard.release_write(tree);
        r
    }

    /// Opens the file at `path` for writing: reserves the file, making it
    /// and its missing parent directories if need be, and hands out an
    /// empty stream for it. Fails with `PathCollision`, and changes nothing,
    /// if `path` is a directory or a name on the way is a file.
    pub fn create(&self, path: &PathKey) -> (r: Result<WritableStream, StoreError>)
        ensures
            match r {
                Ok(s) => s.target() == path@ && s.buffered() == Seq::<u8>::empty(),
                Err(e) => e == StoreError::PathCollision,
            },
            path@.len() == 0 ==> r is Err,
    {
        let (mut tree, guard) = self.root.acquire_write();
        proof {
            lemma_put_file_succeeds(tree@, path@, Seq::empty());
        }
        let r = tree.create(path);
        guard.release_write(tree);
        r
    }

    /// Gives the file of the stream the bytes of the stream while holding
    /// the lock alone, so that a reader finds the content of before or all
    /// of the new content. Fails with `PathCollision`, and changes nothing,
    /// if the address has become a directory or a name on the way a file.
    pub fn commit(&self, stream: WritableStream) -> (r: Result<(), StoreError>)
        ensures
            r matches Err(e) ==> e == StoreError::PathCollision,
            stream.target().len() == 0 ==> r is Err,
    {
        let (mut tree, guard) = self.root.acquire_write();
        proof {
            lemma_put_file_succeeds(tree@, stream.target(), stream.buffered());
        }
        let r = tree.commit(stream);
        guard.release_write(tree);
        r
    }

    /// Opens the file at `path` for reading: a stream over the content that
    /// the file has at this moment. Fails as `file_size` does.
    pub fn open(&self, path: &PathKey) -> (r: Result<ReadableStream, StoreError>)
        ensures
            match r {
                Ok(s) => s.position() == 0,
                Err(e) => file_failure(e),
            },
            path@.len() == 0 ==> r is Err && r->Err_0 == StoreError::NotAFile,
    {
        let guard = self.root.acquire_read();
        let tree = guard.borrow();
        proof {
            lemma_resolve_file(tree@, path@);
        }
        let r = tree.open(path);
        guard.release_read();
        r
    }

    /// Removes the file at `path`. Fails with `NotFound` if nothing is
    /// there, with `NotAFile` if a directory is there, with `NotADirectory`
    /// if a name on the way is a file; nothing is removed then.
    pub fn remove_file(&self, path: &PathKey) -> (r: Result<(), StoreError>)
        ensures
            r matches Err(e) ==> file_failure(e),
            path@.len() == 0 ==> r == Err::<(), StoreError>(StoreError::NotAFile),
    {
        let (mut tree, guard) = self.root.acquire_write();
        proof {
            lemma_resolve_file(tree@, path@);
            lemma_remove_file_resolves(tree@, path@);
        }
        let r = tree.remove_file(path);
        guard.release_write(tree);
        r
    }

    /// The nodes that the directory at `path` has at this moment, each with
    /// its kind and a name that can be joined to `path`, in the order of
    /// their names. Fails with `NotFound` if nothing is there and with
    /// `NotADirectory` if `path` or a name on the way is a file.
    pub fn enumerate(&self, path: &PathKey) -> (r: Result<Vec<DirItem>, StoreError>)
        ensures
            match r {
                Ok(items) => ascending(listing(items@)) && joinable(listing(items@)),
                Err(e) => dir_failure(e),
            },
            path@.len() == 0 ==> r is Ok,
    {
        let guard = self.root.acquire_read();
        let tree = guard.borrow();
        proof {
            lemma_resolve_dir_failure(tree@, path@);
        }
        let r = tree.enumerate(path);
        guard.release_read();
        r
    }
}

/// A shared workspace is a backend that others can change.
impl FilesystemCapability for MemoryFilesystem {
    open spec fn ready(&self) -> bool {
        true
    }

    open spec fn exclusive(&self) -> Option<DirModel> {
        None
    }

    fn contains(&self, path: &PathKey) -> (r: bool) {
        MemoryFilesystem::contains(self, path)
    }

    fn file_size(&self, path: &PathKey) -> (r: Result<u64, StoreError>) {
        MemoryFilesystem::file_size(self, path)
    }

    fn create_dir_all(&mut self, path: &PathKey) -> (r: Result<(), StoreError>) {
        MemoryFilesystem::create_dir_all(self, path)
    }

    fn create(&mut self, path: &PathKey) -> (r: Result<WritableStream, StoreError>) {
        MemoryFilesystem::create(self, path)
    }

    fn commit(&mut self, stream: WritableStream) -> (r: Result<(), StoreError>) {
        MemoryFilesystem::commit(self, stream)
    }

    fn open(&self, path: &PathKey) -> (r: Result<ReadableStream, StoreError>) {
        MemoryFilesystem::open(self, path)
    }

    fn remove_file(&mut self, path: &PathKey) -> (r: Result<(), StoreError>) {
        MemoryFilesystem::remove_file(self, path)
    }

    fn enumerate(&self, path: &PathKey) -> (r: Result<Vec<DirItem>, StoreError>) {
        MemoryFilesystem::enumerate(self, path)
    }
}

} // verus!
