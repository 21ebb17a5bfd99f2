//! What holds of the operations on a directory tree, whatever the tree and
//! the address.
//!
//! Each operation is characterised address by address: what an address holds
//! afterwards is given by what it held before and by how it stands to the
//! address that the operation worked on.

use crate::error::StoreError;
use crate::model::{
    dir_failure, fresh, is_listing, make_dirs, put_file, remove_file, reserve_file, resolve_dir,
    resolve_file, stored_at, DirModel, NodeKind, NodeModel, Stored,
};
use crate::order::{lemma_name_order_strict_total, name_lt, name_order};
use crate::path::is_prefix;
use vstd::prelude::*;

verus! {

/// What `path` holds below `node`: the node itself for the empty path.
pub open spec fn stored_below(node: NodeModel, path: Seq<Seq<char>>) -> Option<Stored> {
    match node {
        NodeModel::File(bytes) => if path.len() == 0 {
            Some(Stored::File(bytes))
        } else {
            None
        },
        NodeModel::Dir(sub) => stored_at(sub, path),
    }
}

/// A name on the way to `path`, before its last name, is a file.
pub open spec fn blocked(dir: DirModel, path: Seq<Seq<char>>) -> bool {
    exists|k: int| 0 < k < path.len() && #[trigger] stored_at(dir, path.take(k)) is Some
        && stored_at(dir, path.take(k))->Some_0 is File
}

/// A non-empty address is a prefix of another exactly if both begin with the
/// same name and the rest of the one is a prefix of the rest of the other.
pub proof fn lemma_prefix_step(a: Seq<Seq<char>>, b: Seq<Seq<char>>)
    requires
        a.len() > 0,
    ensures
        is_prefix(a, b) == (b.len() > 0 && a[0] == b[0] && is_prefix(
            a.drop_first(),
            b.drop_first(),
        )),
{
    if is_prefix(a, b) {
        assert(b.take(a.len() as int)[0] == a[0]);
        assert(b.drop_first().take(a.len() - 1) =~= b.take(a.len() as int).drop_first());
    }
    if b.len() > 0 && a[0] == b[0] && is_prefix(a.drop_first(), b.drop_first()) {
        assert(b.take(a.len() as int) =~= seq![b[0]] + b.drop_first().take(a.len() - 1));
        assert(a =~= seq![a[0]] + a.drop_first());
    }
}

/// What a non-empty address holds is what its rest holds below the node of
/// its first name.
pub proof fn lemma_stored_step(dir: DirModel, path: Seq<Seq<char>>)
    requires
        path.len() > 0,
    ensures
        stored_at(dir, path) == if dir.contains_key(path[0]) {
            stored_below(dir[path[0]], path.drop_first())
        } else {
            None
        },
{
}

/// Whether a name on the way to a non-empty address is a file rests with the
/// node of its first name: nothing is in the way where that node is absent,
/// a file is in the way of everything but itself, and a directory passes the
/// question on to the rest of the address.
pub proof fn lemma_blocked_step(dir: DirModel, path: Seq<Seq<char>>)
    requires
        path.len() > 0,
    ensures
        blocked(dir, path) == if !dir.contains_key(path[0]) {
            false
        } else {
            match dir[path[0]] {
                NodeModel::File(_) => path.len() > 1,
                NodeModel::Dir(sub) => blocked(sub, path.drop_first()),
            }
        },
{
    let rest = path.drop_first();
    assert forall|k: int| 0 < k <= path.len() implies #[trigger] path.take(k).drop_first()
        == rest.take(k - 1) && path.take(k)[0] == path[0] by {
        assert(path.take(k).drop_first() =~= rest.take(k - 1));
    }
    assert forall|k: int| 0 < k < path.len() implies #[trigger] stored_at(dir, path.take(k)) == if
        dir.contains_key(path[0]) {
        stored_below(dir[path[0]], rest.take(k - 1))
    } else {
        None
    } by {
        lemma_stored_step(dir, path.take(k));
    }
    if dir.contains_key(path[0]) {
        match dir[path[0]] {
            NodeModel::File(_) => {
                if path.len() > 1 {
                    assert(rest.take(0).len() == 0);
                    assert(stored_at(dir, path.take(1)) is Some);
                }
            },
            NodeModel::Dir(sub) => {
                if blocked(sub, rest) {
                    let k = choose|k: int|
                        0 < k < rest.len() && #[trigger] stored_at(sub, rest.take(k)) is Some
                            && stored_at(sub, rest.take(k))->Some_0 is File;
                    assert(path.take(k + 1).drop_first() == rest.take(k));
                    assert(stored_at(dir, path.take(k + 1)) is Some);
                }
                if blocked(dir, path) {
                    let k = choose|k: int|
                        0 < k < path.len() && #[trigger] stored_at(dir, path.take(k)) is Some
                            && stored_at(dir, path.take(k))->Some_0 is File;
                    assert(path.take(k).drop_first() == rest.take(k - 1));
                    if k > 1 {
                        assert(stored_at(sub, rest.take(k - 1)) is Some);
                    } else {
                        assert(rest.take(0).len() == 0);
                    }
                }
            },
        }
    }
}

/// Below a fresh chain of directories, the addresses along the chain hold
/// directories, its end holds the leaf, and no other address holds anything.
pub proof fn lemma_fresh_below(path: Seq<Seq<char>>, leaf: NodeModel, q: Seq<Seq<char>>)
    requires
        leaf is File || leaf == NodeModel::Dir(Map::empty()),
    ensures
        stored_below(fresh(path, leaf), q) == if q == path {
            Some(leaf.stored())
        } else if is_prefix(q, path) {
            Some(Stored::Directory)
        } else {
            None
        },
    decreases path.len(),
{
    if path.len() == 0 {
        if q.len() == 0 {
            assert(q =~= path);
        } else {
            assert(!is_prefix(q, path));
            if leaf == NodeModel::Dir(Map::empty()) {
                lemma_stored_step(Map::empty(), q);
            }
        }
    } else {
        let inner = fresh(path.drop_first(), leaf);
        let dir = DirModel::empty().insert(path[0], inner);
        if q.len() == 0 {
            assert(is_prefix(q, path)) by {
                assert(path.take(0) =~= q);
            }
        } else {
            lemma_stored_step(dir, q);
            lemma_prefix_step(q, path);
            if q[0] == path[0] {
                lemma_fresh_below(path.drop_first(), leaf, q.drop_first());
                if q.drop_first() == path.drop_first() {
                    assert(q =~= seq![q[0]] + q.drop_first());
                    assert(path =~= seq![path[0]] + path.drop_first());
                }
            }
        }
    }
}

/// After the directories along `path` were made, every prefix of `path`
/// holds a directory, and every other address holds what it held before.
pub proof fn lemma_make_dirs_at(
    dir: DirModel,
    path: Seq<Seq<char>>,
    q: Seq<Seq<char>>,
)
    requires
        make_dirs(dir, path) is Ok,
    ensures
        stored_at(make_dirs(dir, path)->Ok_0, q) == if is_prefix(q, path) {
            Some(Stored::Directory)
        } else {
            stored_at(dir, q)
        },
    decreases path.len(),
{
    let made = make_dirs(dir, path)->Ok_0;
    if q.len() == 0 {
        assert(path.take(0) =~= q);
    } else if path.len() == 0 {
    } else {
        lemma_stored_step(dir, q);
        lemma_stored_step(made, q);
        lemma_prefix_step(q, path);
        if q[0] == path[0] {
            if !dir.contains_key(path[0]) {
                lemma_fresh_below(
                    path.drop_first(),
                    NodeModel::Dir(Map::empty()),
                    q.drop_first(),
                );
                if q.drop_first() == path.drop_first() {
                    assert(is_prefix(q.drop_first(), path.drop_first())) by {
                        assert(path.drop_first().take(q.drop_first().len() as int)
                            =~= q.drop_first());
                    }
                }
            } else {
                match dir[path[0]] {
                    NodeModel::File(_) => {},
                    NodeModel::Dir(sub) => {
                        lemma_make_dirs_at(sub, path.drop_first(), q.drop_first());
                    },
                }
            }
        }
    }
}

/// The directories along `path` can be made exactly if no name of `path` is
/// a file.
pub proof fn lemma_make_dirs_succeeds(dir: DirModel, path: Seq<Seq<char>>)
    ensures
        make_dirs(dir, path) is Ok <==> !blocked(dir, path) && !(stored_at(dir, path) is Some
            && stored_at(dir, path)->Some_0 is File),
        make_dirs(dir, path) is Err ==> make_dirs(dir, path)->Err_0 == StoreError::PathCollision,
    decreases path.len(),
{
    if path.len() > 0 {
        lemma_stored_step(dir, path);
        lemma_blocked_step(dir, path);
        if dir.contains_key(path[0]) {
            match dir[path[0]] {
                NodeModel::File(_) => {},
                NodeModel::Dir(sub) => {
                    lemma_make_dirs_succeeds(sub, path.drop_first());
                },
            }
        }
    }
}

/// Making the directories along `path` a second time changes nothing.
pub proof fn lemma_make_dirs_idempotent(dir: DirModel, path: Seq<Seq<char>>)
    requires
        make_dirs(dir, path) is Ok,
    ensures
        make_dirs(make_dirs(dir, path)->Ok_0, path) == make_dirs(dir, path),
    decreases path.len(),
{
    if path.len() > 0 {
        let made = make_dirs(dir, path)->Ok_0;
        let rest = path.drop_first();
        if !dir.contains_key(path[0]) {
            lemma_fresh_dirs(rest);
            let inner = fresh(rest, NodeModel::Dir(Map::empty()))->Dir_0;
            assert(made.insert(path[0], NodeModel::Dir(inner)) =~= made);
        } else {
            match dir[path[0]] {
                NodeModel::File(_) => {},
                NodeModel::Dir(sub) => {
                    lemma_make_dirs_idempotent(sub, rest);
                    let inner = make_dirs(sub, rest)->Ok_0;
                    assert(made.insert(path[0], NodeModel::Dir(inner)) =~= made);
                },
            }
        }
    }
}

/// A fresh chain of directories is a directory in which the directories
/// along the chain are made already.
pub proof fn lemma_fresh_dirs(path: Seq<Seq<char>>)
    ensures
        fresh(path, NodeModel::Dir(Map::empty())) is Dir,
        make_dirs(fresh(path, NodeModel::Dir(Map::empty()))->Dir_0, path) == Ok::<
            DirModel,
            StoreError,
        >(fresh(path, NodeModel::Dir(Map::empty()))->Dir_0),
    decreases path.len(),
{
    if path.len() > 0 {
        lemma_fresh_dirs(path.drop_first());
        let dir = fresh(path, NodeModel::Dir(Map::empty()))->Dir_0;
        let inner = fresh(path.drop_first(), NodeModel::Dir(Map::empty()))->Dir_0;
        assert(dir.insert(path[0], NodeModel::Dir(inner)) =~= dir);
    }
}

/// After a file was written at `path`, `path` holds the file, every proper
/// prefix of `path` holds a directory, and every other address holds what it
/// held before.
pub proof fn lemma_put_file_at(
    dir: DirModel,
    path: Seq<Seq<char>>,
    bytes: Seq<u8>,
    q: Seq<Seq<char>>,
)
    requires
        put_file(dir, path, bytes) is Ok,
    ensures
        stored_at(put_file(dir, path, bytes)->Ok_0, q) == if q == path {
            Some(Stored::File(bytes))
        } else if is_prefix(q, path) {
            Some(Stored::Directory)
        } else {
            stored_at(dir, q)
        },
    decreases path.len(),
{
    let made = put_file(dir, path, bytes)->Ok_0;
    if q.len() == 0 {
        assert(path.take(0) =~= q);
    } else {
        lemma_stored_step(dir, q);
        lemma_stored_step(made, q);
        lemma_prefix_step(q, path);
        if q[0] == path[0] {
            if q.drop_first() == path.drop_first() {
                assert(q =~= seq![q[0]] + q.drop_first());
                assert(path =~= seq![path[0]] + path.drop_first());
            }
            if !dir.contains_key(path[0]) {
                lemma_fresh_below(path.drop_first(), NodeModel::File(bytes), q.drop_first());
            } else {
                match dir[path[0]] {
                    NodeModel::File(_) => {
                        assert(path.drop_first() =~= Seq::<Seq<char>>::empty());
                        if q.len() == 1 {
                            assert(q.drop_first() =~= path.drop_first());
                        }
                    },
                    NodeModel::Dir(sub) => {
                        lemma_put_file_at(sub, path.drop_first(), bytes, q.drop_first());
                    },
                }
            }
        }
    }
}

/// A file can be written at `path` exactly if `path` is not the root, holds
/// no directory, and no name on the way to it is a file.
pub proof fn lemma_put_file_succeeds(
    dir: DirModel,
    path: Seq<Seq<char>>,
    bytes: Seq<u8>,
)
    ensures
        put_file(dir, path, bytes) is Ok <==> !blocked(dir, path) && !(stored_at(dir, path)
            == Some(Stored::Directory)),
        put_file(dir, path, bytes) is Err ==> put_file(dir, path, bytes)->Err_0
            == StoreError::PathCollision,
    decreases path.len(),
{
    if path.len() > 0 {
        lemma_stored_step(dir, path);
        lemma_blocked_step(dir, path);
        if dir.contains_key(path[0]) {
            match dir[path[0]] {
                NodeModel::File(_) => {},
                NodeModel::Dir(sub) => {
                    lemma_put_file_succeeds(sub, path.drop_first(), bytes);
                },
            }
        }
    }
}

/// How an address resolves to a file, by what it and the names on the way
/// to it hold: the file's bytes if it holds a file, `NotAFile` if it holds
/// a directory, `NotADirectory` if a name on the way is a file, and
/// `NotFound` else.
pub proof fn lemma_resolve_file(dir: DirModel, path: Seq<Seq<char>>)
    ensures
        resolve_file(dir, path) == (match stored_at(dir, path) {
            Some(Stored::File(bytes)) => Ok::<Seq<u8>, StoreError>(bytes),
            Some(Stored::Directory) => Err(StoreError::NotAFile),
            None => if blocked(dir, path) {
                Err(StoreError::NotADirectory)
            } else {
                Err(StoreError::NotFound)
            },
        }),
    decreases path.len(),
{
    if path.len() > 0 {
        lemma_stored_step(dir, path);
        lemma_blocked_step(dir, path);
        if dir.contains_key(path[0]) {
            match dir[path[0]] {
                NodeModel::File(_) => {},
                NodeModel::Dir(sub) => {
                    lemma_resolve_file(sub, path.drop_first());
                },
            }
        }
    }
}

/// Resolving an address to a directory fails with `NotFound` or
/// `NotADirectory` only.
pub proof fn lemma_resolve_dir_failure(dir: DirModel, path: Seq<Seq<char>>)
    ensures
        resolve_dir(dir, path) matches Err(e) ==> dir_failure(e),
    decreases path.len(),
{
    if path.len() > 0 && dir.contains_key(path[0]) {
        match dir[path[0]] {
            NodeModel::File(_) => {},
            NodeModel::Dir(sub) => {
                lemma_resolve_dir_failure(sub, path.drop_first());
            },
        }
    }
}

/// A file can be removed exactly if the address resolves to a file, and the
/// removal fails as the resolution does.
pub proof fn lemma_remove_file_resolves(dir: DirModel, path: Seq<Seq<char>>)
    ensures
        remove_file(dir, path) is Ok <==> resolve_file(dir, path) is Ok,
        remove_file(dir, path) is Err ==> remove_file(dir, path)->Err_0 == resolve_file(
            dir,
            path,
        )->Err_0,
    decreases path.len(),
{
    if path.len() > 0 && dir.contains_key(path[0]) {
        match dir[path[0]] {
            NodeModel::File(_) => {},
            NodeModel::Dir(sub) => {
                lemma_remove_file_resolves(sub, path.drop_first());
            },
        }
    }
}

/// After the file at `path` was removed, `path` holds nothing, and every
/// other address holds what it held before.
pub proof fn lemma_remove_file_at(
    dir: DirModel,
    path: Seq<Seq<char>>,
    q: Seq<Seq<char>>,
)
    requires
        remove_file(dir, path) is Ok,
    ensures
        stored_at(remove_file(dir, path)->Ok_0, q) == if q == path {
            None
        } else {
            stored_at(dir, q)
        },
    decreases path.len(),
{
    let left = remove_file(dir, path)->Ok_0;
    if q.len() == 0 {
    } else {
        lemma_stored_step(dir, q);
        lemma_stored_step(left, q);
        if q[0] == path[0] {
            if q.drop_first() == path.drop_first() {
                assert(q =~= seq![q[0]] + q.drop_first());
                assert(path =~= seq![path[0]] + path.drop_first());
            }
            match dir[path[0]] {
                NodeModel::File(_) => {
                    assert(path.drop_first() =~= Seq::<Seq<char>>::empty());
                    if q.len() == 1 {
                        assert(q.drop_first() =~= path.drop_first());
                    }
                },
                NodeModel::Dir(sub) => {
                    lemma_remove_file_at(sub, path.drop_first(), q.drop_first());
                },
            }
        }
    }
}

/// Where an address holds a file, the file can be removed; then the
/// address holds nothing, and every other address holds what it held before.
pub proof fn lemma_remove_where_file(
    dir: DirModel,
    path: Seq<Seq<char>>,
    q: Seq<Seq<char>>,
)
    requires
        stored_at(dir, path) is Some,
        stored_at(dir, path)->Some_0 is File,
    ensures
        remove_file(dir, path) is Ok,
        stored_at(remove_file(dir, path)->Ok_0, q) == if q == path {
            None
        } else {
            stored_at(dir, q)
        },
{
    lemma_resolve_file(dir, path);
    lemma_remove_file_resolves(dir, path);
    lemma_remove_file_at(dir, path, q);
}

/// A file that was written can be removed; then its address holds nothing,
/// and every directory on the way to it is still there.
pub proof fn lemma_remove_after_put(
    dir: DirModel,
    path: Seq<Seq<char>>,
    bytes: Seq<u8>,
    k: int,
)
    requires
        put_file(dir, path, bytes) is Ok,
        0 <= k < path.len(),
    ensures
        remove_file(put_file(dir, path, bytes)->Ok_0, path) is Ok,
        stored_at(remove_file(put_file(dir, path, bytes)->Ok_0, path)->Ok_0, path) is None,
        stored_at(remove_file(put_file(dir, path, bytes)->Ok_0, path)->Ok_0, path.take(k)) == Some(
            Stored::Directory,
        ),
{
    let written = put_file(dir, path, bytes)->Ok_0;
    lemma_put_file_at(dir, path, bytes, path);
    lemma_put_file_at(dir, path, bytes, path.take(k));
    lemma_remove_where_file(written, path, path);
    lemma_remove_where_file(written, path, path.take(k));
    assert(is_prefix(path.take(k), path));
}

/// A file that was reserved can be removed; then its address holds nothing,
/// and every directory on the way to it is still there.
pub proof fn lemma_remove_after_reserve(
    dir: DirModel,
    path: Seq<Seq<char>>,
    k: int,
)
    requires
        reserve_file(dir, path) is Ok,
        0 <= k < path.len(),
    ensures
        remove_file(reserve_file(dir, path)->Ok_0, path) is Ok,
        stored_at(remove_file(reserve_file(dir, path)->Ok_0, path)->Ok_0, path) is None,
        stored_at(remove_file(reserve_file(dir, path)->Ok_0, path)->Ok_0, path.take(k)) == Some(
            Stored::Directory,
        ),
{
    let reserved = reserve_file(dir, path)->Ok_0;
    lemma_reserve_file_at(dir, path, path);
    lemma_reserve_file_at(dir, path, path.take(k));
    lemma_remove_where_file(reserved, path, path);
    lemma_remove_where_file(reserved, path, path.take(k));
    assert(is_prefix(path.take(k), path));
}

/// Removing a file fails with `NotAFile` at a directory, with
/// `NotADirectory` where a name on the way is a file, and with `NotFound`
/// where nothing is stored and nothing is in the way.
pub proof fn lemma_remove_file_refuses(dir: DirModel, path: Seq<Seq<char>>)
    ensures
        stored_at(dir, path) == Some(Stored::Directory) ==> remove_file(dir, path) == Err::<
            DirModel,
            StoreError,
        >(StoreError::NotAFile),
        stored_at(dir, path) is None && !blocked(dir, path) ==> remove_file(dir, path) == Err::<
            DirModel,
            StoreError,
        >(StoreError::NotFound),
        stored_at(dir, path) is None && blocked(dir, path) ==> remove_file(dir, path) == Err::<
            DirModel,
            StoreError,
        >(StoreError::NotADirectory),
{
    lemma_resolve_file(dir, path);
    lemma_remove_file_resolves(dir, path);
}

/// After the directories along `path` were made, `path` and every address on
/// the way to it hold a directory.
pub proof fn lemma_directories_after_make_dirs(
    dir: DirModel,
    path: Seq<Seq<char>>,
    k: int,
)
    requires
        make_dirs(dir, path) is Ok,
        0 <= k <= path.len(),
    ensures
        stored_at(make_dirs(dir, path)->Ok_0, path.take(k)) == Some(Stored::Directory),
{
    lemma_make_dirs_at(dir, path, path.take(k));
    assert(is_prefix(path.take(k), path));
}

/// Reserving a file leaves a file at the address, with the content that a
/// file there had before, and changes no other address but to make the
/// directories on the way.
pub proof fn lemma_reserve_file_at(
    dir: DirModel,
    path: Seq<Seq<char>>,
    q: Seq<Seq<char>>,
)
    requires
        reserve_file(dir, path) is Ok,
    ensures
        stored_at(reserve_file(dir, path)->Ok_0, q) == if q == path {
            match stored_at(dir, path) {
                Some(Stored::File(bytes)) => Some(Stored::File(bytes)),
                _ => Some(Stored::File(Seq::empty())),
            }
        } else if is_prefix(q, path) {
            Some(Stored::Directory)
        } else {
            stored_at(dir, q)
        },
{
    lemma_resolve_file(dir, path);
    if resolve_file(dir, path) is Ok {
        if q != path && is_prefix(q, path) {
            lemma_prefix_holds_directory(dir, path, q);
        }
    } else {
        lemma_put_file_at(dir, path, Seq::empty(), q);
        lemma_put_file_succeeds(dir, path, Seq::empty());
    }
}

/// Where an address holds a node, every proper prefix of it holds a directory.
pub proof fn lemma_prefix_holds_directory(
    dir: DirModel,
    path: Seq<Seq<char>>,
    q: Seq<Seq<char>>,
)
    requires
        stored_at(dir, path) is Some,
        is_prefix(q, path),
        q != path,
    ensures
        stored_at(dir, q) == Some(Stored::Directory),
    decreases path.len(),
{
    if q.len() > 0 {
        lemma_prefix_step(q, path);
        lemma_stored_step(dir, path);
        lemma_stored_step(dir, q);
        match dir[path[0]] {
            NodeModel::File(_) => {
                assert(q.drop_first() =~= path.drop_first());
                assert(q =~= seq![q[0]] + q.drop_first());
                assert(path =~= seq![path[0]] + path.drop_first());
            },
            NodeModel::Dir(sub) => {
                if q.drop_first() == path.drop_first() {
                    assert(q =~= seq![q[0]] + q.drop_first());
                    assert(path =~= seq![path[0]] + path.drop_first());
                }
                lemma_prefix_holds_directory(sub, path.drop_first(), q.drop_first());
            },
        }
    }
}

/// Writing a file where a file was written before gives what writing it at
/// once would have given.
pub proof fn lemma_put_after_put(
    dir: DirModel,
    path: Seq<Seq<char>>,
    first: Seq<u8>,
    second: Seq<u8>,
)
    requires
        put_file(dir, path, first) is Ok,
    ensures
        put_file(put_file(dir, path, first)->Ok_0, path, second) == put_file(dir, path, second),
    decreases path.len(),
{
    if path.len() > 0 {
        let rest = path.drop_first();
        let written = put_file(dir, path, first)->Ok_0;
        if !dir.contains_key(path[0]) {
            lemma_put_in_fresh(rest, first, second);
            assert(written.insert(path[0], fresh(rest, NodeModel::File(second))) =~= dir.insert(
                path[0],
                fresh(rest, NodeModel::File(second)),
            ));
        } else {
            match dir[path[0]] {
                NodeModel::File(_) => {
                    assert(written.insert(path[0], NodeModel::File(second)) =~= dir.insert(
                        path[0],
                        NodeModel::File(second),
                    ));
                },
                NodeModel::Dir(sub) => {
                    lemma_put_after_put(sub, rest, first, second);
                    let inner = put_file(sub, rest, second)->Ok_0;
                    assert(written.insert(path[0], NodeModel::Dir(inner)) =~= dir.insert(
                        path[0],
                        NodeModel::Dir(inner),
                    ));
                },
            }
        }
    }
}

/// Writing the file at the end of a fresh chain gives the fresh chain to
/// the new content.
pub proof fn lemma_put_in_fresh(path: Seq<Seq<char>>, first: Seq<u8>, second: Seq<u8>)
    ensures
        path.len() > 0 ==> fresh(path, NodeModel::File(first)) is Dir && put_file(
            fresh(path, NodeModel::File(first))->Dir_0,
            path,
            second,
        ) == Ok::<DirModel, StoreError>(
            fresh(path, NodeModel::File(second))->Dir_0,
        ),
    decreases path.len(),
{
    if path.len() > 0 {
        let rest = path.drop_first();
        lemma_put_in_fresh(rest, first, second);
        let before = fresh(path, NodeModel::File(first))->Dir_0;
        let after = fresh(path, NodeModel::File(second))->Dir_0;
        if rest.len() == 0 {
            assert(before.insert(path[0], NodeModel::File(second)) =~= after);
        } else {
            let inner = fresh(rest, NodeModel::File(second))->Dir_0;
            assert(before.insert(path[0], NodeModel::Dir(inner)) =~= after);
        }
    }
}

/// Writing a file that was reserved gives what writing it without the
/// reservation would have given, and a reservation fails exactly where the
/// writing would fail.
pub proof fn lemma_put_after_reserve(
    dir: DirModel,
    path: Seq<Seq<char>>,
    bytes: Seq<u8>,
)
    ensures
        match reserve_file(dir, path) {
            Ok(reserved) => put_file(reserved, path, bytes) == put_file(dir, path, bytes)
                && put_file(dir, path, bytes) is Ok,
            Err(e) => put_file(dir, path, bytes) == Err::<DirModel, StoreError>(e),
        },
{
    lemma_resolve_file(dir, path);
    lemma_put_file_succeeds(dir, path, bytes);
    lemma_put_file_succeeds(dir, path, Seq::empty());
    if resolve_file(dir, path) is Ok {
        if blocked(dir, path) {
            let k = choose|k: int|
                0 < k < path.len() && #[trigger] stored_at(dir, path.take(k)) is Some && stored_at(
                    dir,
                    path.take(k),
                )->Some_0 is File;
            assert(is_prefix(path.take(k), path));
            lemma_prefix_holds_directory(dir, path, path.take(k));
        }
    } else if put_file(dir, path, Seq::empty()) is Ok {
        lemma_put_after_put(dir, path, Seq::empty(), bytes);
    }
}

/// A directory has one listing only: two listings of the same directory are
/// the same sequence.
pub proof fn lemma_listing_unique(
    dir: DirModel,
    a: Seq<(Seq<char>, NodeKind)>,
    b: Seq<(Seq<char>, NodeKind)>,
)
    requires
        is_listing(dir, a),
        is_listing(dir, b),
    ensures
        a == b,
    decreases a.len(),
{
    lemma_name_order_strict_total();
    assert forall|x: Seq<char>, y: Seq<char>| name_order()(x, y) == name_lt(x, y) by {}
    if a.len() == 0 {
        if b.len() > 0 {
            assert(dir.contains_key(b[0].0));
        }
        assert(a =~= b);
    } else {
        assert(dir.contains_key(a[0].0));
        let j = choose|j: int| 0 <= j < b.len() && #[trigger] b[j].0 == a[0].0;
        assert(dir.contains_key(b[0].0));
        let i = choose|i: int| 0 <= i < a.len() && #[trigger] a[i].0 == b[0].0;
        if j > 0 {
            assert(name_lt(b[0].0, b[j].0));
            if i > 0 {
                assert(name_lt(a[0].0, a[i].0));
                assert(name_order()(b[0].0, a[0].0) && name_order()(a[0].0, b[0].0));
                assert(name_order()(b[0].0, b[0].0));
            }
            assert(name_order()(a[0].0, a[0].0));
        }
        assert(a[0].0 == b[0].0);
        assert(a[0] == b[0]);
        let first = a[0].0;
        let rest = dir.remove(first);
        lemma_listing_tail(dir, a);
        lemma_listing_tail(dir, b);
        lemma_listing_unique(rest, a.drop_first(), b.drop_first());
        assert(a =~= seq![a[0]] + a.drop_first());
        assert(b =~= seq![b[0]] + b.drop_first());
    }
}

/// The listing of a directory without its first line lists the directory
/// without the node of that line.
pub proof fn lemma_listing_tail(dir: DirModel, a: Seq<(Seq<char>, NodeKind)>)
    requires
        is_listing(dir, a),
        a.len() > 0,
    ensures
        is_listing(dir.remove(a[0].0), a.drop_first()),
{
    lemma_name_order_strict_total();
    assert forall|x: Seq<char>, y: Seq<char>| name_order()(x, y) == name_lt(x, y) by {}
    let tail = a.drop_first();
    let rest = dir.remove(a[0].0);
    assert forall|i: int, j: int| 0 <= i < j < tail.len() implies name_lt(
        #[trigger] tail[i].0,
        #[trigger] tail[j].0,
    ) by {
        assert(name_lt(a[i + 1].0, a[j + 1].0));
    }
    assert forall|i: int| 0 <= i < tail.len() implies rest.contains_key(#[trigger] tail[i].0)
        && rest[tail[i].0].kind() == tail[i].1 by {
        assert(name_lt(a[0].0, a[i + 1].0));
        assert(!name_order()(a[0].0, a[0].0));
        assert(dir.contains_key(a[i + 1].0));
    }
    assert forall|name: Seq<char>| #[trigger] rest.contains_key(name) implies exists|i: int|
        0 <= i < tail.len() && #[trigger] tail[i].0 == name by {
        assert(dir.contains_key(name));
        let k = choose|k: int| 0 <= k < a.len() && #[trigger] a[k].0 == name;
        assert(tail[k - 1].0 == name);
    }
}

} // verus!
