//! What every storage backend of the workspace offers.
//!
//! A backend that nobody else can change, such as a directory tree that is
//! owned, says which tree it holds, and the contracts below then pin every
//! answer. A backend that is shared answers from whatever the tree is at
//! that moment: of it the contracts state what holds of every answer.

use crate::error::StoreError;
use crate::laws::{
    lemma_make_dirs_succeeds, lemma_put_file_succeeds, lemma_remove_file_resolves,
    lemma_resolve_dir_failure, lemma_resolve_file,
};
use crate::model::{
    ascending, dir_failure, file_failure, follows, is_listing, joinable, lookup, make_dirs,
    put_file, remove_file, reserve_file, resolve_dir, resolve_file, DirModel,
};
use crate::path::PathKey;
use crate::stream::{ReadableStream, WritableStream};
use crate::tree::{listing, DirItem, DirectoryTree};
use vstd::prelude::*;

verus! {

/// The operations of a storage backend, each keyed by an address.
pub trait FilesystemCapability {
    /// The backend is in a state in which it serves.
    spec fn ready(&self) -> bool;

    /// The tree that the backend holds, if nobody else can change it.
    spec fn exclusive(&self) -> Option<DirModel>;

    /// Tells whether `path` is a file or a directory.
    fn contains(&self, path: &PathKey) -> (r: bool)
        requires
            self.ready(),
        ensures
            path@.len() == 0 ==> r,
            self.exclusive() matches Some(tree) ==> r == (lookup(tree, path@) is Some),
    ;

    /// The size in bytes of the file at `path`.
    fn file_size(&self, path: &PathKey) -> (r: Result<u64, StoreError>)
        requires
            self.ready(),
        ensures
            r matches Err(e) ==> file_failure(e),
            path@.len() == 0 ==> r == Err::<u64, StoreError>(StoreError::NotAFile),
            self.exclusive() matches Some(tree) ==> match r {
                Ok(n) => resolve_file(tree, path@) is Ok && n == resolve_file(tree, path@)->Ok_0.len(),
                Err(e) => resolve_file(tree, path@) == Err::<Seq<u8>, StoreError>(e),
            },
    ;

    /// Makes every missing directory along `path`.
    fn create_dir_all(&mut self, path: &PathKey) -> (r: Result<(), StoreError>)
        requires
            old(self).ready(),
        ensures
            final(self).ready(),
            r matches Err(e) ==> e == StoreError::PathCollision,
            path@.len() == 0 ==> r is Ok,
            final(self).exclusive() is Some == old(self).exclusive() is Some,
            old(self).exclusive() matches Some(tree) ==> follows(
                make_dirs(tree, path@),
                tree,
                final(self).exclusive()->Some_0,
                r,
            ),
    ;

    /// Opens the file at `path` for writing: reserves the file, making it
    /// and its missing parent directories if need be, and hands out an
    /// empty stream for it. What the file held before stays until the
    /// stream is committed.
    fn create(&mut self, path: &PathKey) -> (r: Result<WritableStream, StoreError>)
        requires
            old(self).ready(),
        ensures
            final(self).ready(),
            match r {
                Ok(s) => s.target() == path@ && s.buffered() == Seq::<u8>::empty(),
                Err(e) => e == StoreError::PathCollision,
            },
            path@.len() == 0 ==> r is Err,
            final(self).exclusive() is Some == old(self).exclusive() is Some,
            old(self).exclusive() matches Some(tree) ==> follows(
                reserve_file(tree, path@),
                tree,
                final(self).exclusive()->Some_0,
                match r {
                    Ok(_) => Ok(()),
                    Err(e) => Err(e),
                },
            ),
    ;

    /// Gives the file of the stream the bytes of the stream, in one step.
    fn commit(&mut self, stream: WritableStream) -> (r: Result<(), StoreError>)
        requires
            old(self).ready(),
        ensures
            final(self).ready(),
            r matches Err(e) ==> e == StoreError::PathCollision,
            stream.target().len() == 0 ==> r is Err,
            final(self).exclusive() is Some == old(self).exclusive() is Some,
            old(self).exclusive() matches Some(tree) ==> follows(
                put_file(tree, stream.target(), stream.buffered()),
                tree,
                final(self).exclusive()->Some_0,
                r,
            ),
    ;

    /// Opens the file at `path` for reading: a stream over the content that
    /// the file has now.
    fn open(&self, path: &PathKey) -> (r: Result<ReadableStream, StoreError>)
        requires
            self.ready(),
        ensures
            match r {
                Ok(s) => s.position() == 0,
                Err(e) => file_failure(e),
            },
            path@.len() == 0 ==> r is Err && r->Err_0 == StoreError::NotAFile,
            self.exclusive() matches Some(tree) ==> match r {
                Ok(s) => resolve_file(tree, path@) == Ok::<Seq<u8>, StoreError>(s.content()),
                Err(e) => resolve_file(tree, path@) == Err::<Seq<u8>, StoreError>(e),
            },
    ;

    /// Removes the file at `path`.
    fn remove_file(&mut self, path: &PathKey) -> (r: Result<(), StoreError>)
        requires
            old(self).ready(),
        ensures
            final(self).ready(),
            r matches Err(e) ==> file_failure(e),
            path@.len() == 0 ==> r == Err::<(), StoreError>(StoreError::NotAFile),
            final(self).exclusive() is Some == old(self).exclusive() is Some,
            old(self).exclusive() matches Some(tree) ==> follows(
                remove_file(tree, path@),
                tree,
                final(self).exclusive()->Some_0,
                r,
            ),
    ;

    /// The nodes of the directory at `path`, each with its kind and a name
    /// that can be joined to `path`, in the order of their names.
    fn enumerate(&self, path: &PathKey) -> (r: Result<Vec<DirItem>, StoreError>)
        requires
            self.ready(),
        ensures
            match r {
                Ok(items) => ascending(listing(items@)) && joinable(listing(items@)),
                Err(e) => dir_failure(e),
            },
            path@.len() == 0 ==> r is Ok,
            self.exclusive() matches Some(tree) ==> match r {
                Ok(items) => resolve_dir(tree, path@) is Ok && is_listing(
                    resolve_dir(tree, path@)->Ok_0,
                    listing(items@),
                ),
                Err(e) => resolve_dir(tree, path@) == Err::<DirModel, StoreError>(e),
            },
    ;
}

/// An owned directory tree is a backend that nobody else can change.
impl FilesystemCapability for DirectoryTree {
    open spec fn ready(&self) -> bool {
        self.wf()
    }

    open spec fn exclusive(&self) -> Option<DirModel> {
        Some(self@)
    }

    fn contains(&self, path: &PathKey) -> (r: bool) {
        DirectoryTree::contains(self, path)
    }

    fn file_size(&self, path: &PathKey) -> (r: Result<u64, StoreError>) {
        proof {
            lemma_resolve_file(self@, path@);
        }
        DirectoryTree::file_size(self, path)
    }

    fn create_dir_all(&mut self, path: &PathKey) -> (r: Result<(), StoreError>) {
        proof {
            lemma_make_dirs_succeeds(self@, path@);
        }
        DirectoryTree::create_dir_all(self, path)
    }

    fn create(&mut self, path: &PathKey) -> (r: Result<WritableStream, StoreError>) {
        proof {
            lemma_put_file_succeeds(self@, path@, Seq::empty());
        }
        DirectoryTree::create(self, path)
    }

    fn commit(&mut self, stream: WritableStream) -> (r: Result<(), StoreError>) {
        proof {
            lemma_put_file_succeeds(self@, stream.target(), stream.buffered());
        }
        DirectoryTree::commit(self, stream)
    }

    fn open(&self, path: &PathKey) -> (r: Result<ReadableStream, StoreError>) {
        proof {
            lemma_resolve_file(self@, path@);
        }
        DirectoryTree::open(self, path)
    }

    fn remove_file(&mut self, path: &PathKey) -> (r: Result<(), StoreError>) {
        proof {
            lemma_resolve_file(self@, path@);
            lemma_remove_file_resolves(self@, path@);
        }
        DirectoryTree::remove_file(self, path)
    }

    fn enumerate(&self, path: &PathKey) -> (r: Result<Vec<DirItem>, StoreError>) {
        proof {
            lemma_resolve_dir_failure(self@, path@);
        }
        DirectoryTree::enumerate(self, path)
    }
}

} // verus!
