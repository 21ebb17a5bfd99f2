//! The directory tree: directories that own their subdirectories and files.
//!
//! A directory keeps its nodes in the order of their names, so a name is
//! found by bisection and a listing comes out sorted. Every operation is
//! stated over the tree's model, a map from names to nodes.

use crate::error::StoreError;
use crate::model::{
    follows, fresh, is_listing, joinable, lookup, make_dirs, put_file, remove_file, reserve_file,
    resolve_dir, resolve_file, DirModel, NodeKind, NodeModel,
};
use crate::order::{compare_names, lemma_name_order_strict_total, name_lt, name_order, Relation};
use crate::path::{valid_segment, PathKey};
use crate::stream::{copy_bytes, ReadableStream, WritableStream};
use vstd::prelude::*;

verus! {

/// A file or a directory, as a directory holds it.
enum Node {
    File(Vec<u8>),
    Dir(DirectoryTree),
}

/// A node and the name under which its directory holds it.
struct Entry {
    name: String,
    node: Node,
}

/// A directory and everything below it.
pub struct DirectoryTree {
    entries: Vec<Entry>,
}

/// One line of a directory listing.
#[derive(Debug, PartialEq, Eq)]
pub struct DirItem {
    pub name: String,
    pub kind: NodeKind,
}

/// The entries stand in the strict order of their names.
spec fn sorted(es: Seq<Entry>) -> bool {
    forall|i: int, j: int|
        0 <= i < j < es.len() ==> name_lt(#[trigger] es[i].name@, #[trigger] es[j].name@)
}

/// Some entry has the name.
spec fn has(es: Seq<Entry>, name: Seq<char>) -> bool {
    exists|i: int| 0 <= i < es.len() && (#[trigger] es[i]).name@ == name
}

/// The position of an entry with the name.
spec fn index_of(es: Seq<Entry>, name: Seq<char>) -> int {
    choose|i: int| 0 <= i < es.len() && (#[trigger] es[i]).name@ == name
}

impl Node {
    spec fn wf(&self) -> bool
        decreases self,
    {
        match self {
            Node::File(_) => true,
            Node::Dir(d) => d.wf(),
        }
    }

    spec fn model(&self) -> NodeModel
        decreases self,
    {
        match self {
            Node::File(bytes) => NodeModel::File(bytes@),
            Node::Dir(d) => NodeModel::Dir(d@),
        }
    }

    fn kind(&self) -> (k: NodeKind)
        ensures
            k == self.model().kind(),
    {
        match self {
            Node::File(_) => NodeKind::File,
            Node::Dir(_) => NodeKind::Directory,
        }
    }
}

impl View for DirectoryTree {
    type V = DirModel;

    /// The nodes of the directory, by name.
    closed spec fn view(&self) -> DirModel
        decreases self,
    {
        Map::new(
            |name: Seq<char>| has(self.entries@, name),
            |name: Seq<char>|
                if has(self.entries@, name) {
                    self.entries[index_of(self.entries@, name)].node.model()
                } else {
                    NodeModel::File(Seq::empty())
                },
        )
    }
}

/// The order of names, spelled out.
proof fn lemma_names_ordered()
    ensures
        forall|a: Seq<char>| !name_lt(a, a),
        forall|a: Seq<char>, b: Seq<char>, c: Seq<char>|
            #[trigger] name_lt(a, b) && #[trigger] name_lt(b, c) ==> name_lt(a, c),
        forall|a: Seq<char>, b: Seq<char>| a != b ==> #[trigger] name_lt(a, b) || name_lt(b, a),
{
    lemma_name_order_strict_total();
    assert forall|a: Seq<char>| !name_lt(a, a) by {
        assert(name_order()(a, a) == name_lt(a, a));
    }
    assert forall|a: Seq<char>, b: Seq<char>, c: Seq<char>|
        #[trigger] name_lt(a, b) && #[trigger] name_lt(b, c) implies name_lt(a, c) by {
        assert(name_order()(a, b) && name_order()(b, c));
        assert(name_order()(a, c));
    }
    assert forall|a: Seq<char>, b: Seq<char>| a != b implies #[trigger] name_lt(a, b) || name_lt(
        b,
        a,
    ) by {
        assert(name_order()(a, b) == name_lt(a, b));
        assert(name_order()(b, a) == name_lt(b, a));
    }
}

/// In a sorted directory every entry is found under its name, and nothing
/// is found under any other name.
proof fn lemma_view(t: DirectoryTree)
    requires
        sorted(t.entries@),
    ensures
        forall|name: Seq<char>| t@.contains_key(name) == has(t.entries@, name),
        forall|i: int|
            0 <= i < t.entries.len() ==> t@.contains_key((#[trigger] t.entries[i]).name@)
                && t@[t.entries[i].name@] == t.entries[i].node.model(),
{
    lemma_names_ordered();
    assert forall|i: int| 0 <= i < t.entries.len() implies t@.contains_key(
        (#[trigger] t.entries[i]).name@,
    ) && t@[t.entries[i].name@] == t.entries[i].node.model() by {
        let name = t.entries[i].name@;
        assert(t.entries@[i].name@ == name);
        assert(has(t.entries@, name));
        let j = index_of(t.entries@, name);
        if j < i {
            assert(name_lt(t.entries@[j].name@, t.entries@[i].name@));
        } else if i < j {
            assert(name_lt(t.entries@[i].name@, t.entries@[j].name@));
        }
    }
}

/// Putting an entry at the place that the order gives it adds its node to the view.
proof fn lemma_insert(before: DirectoryTree, after: DirectoryTree, k: int, e: Entry)
    requires
        sorted(before.entries@),
        0 <= k <= before.entries.len(),
        forall|j: int| 0 <= j < k ==> name_lt(#[trigger] before.entries[j].name@, e.name@),
        forall|j: int|
            k <= j < before.entries.len() ==> name_lt(e.name@, #[trigger] before.entries[j].name@),
        after.entries@ == before.entries@.insert(k, e),
    ensures
        sorted(after.entries@),
        after@ == before@.insert(e.name@, e.node.model()),
{
    lemma_names_ordered();
    let old_es = before.entries@;
    let new_es = after.entries@;
    assert forall|i: int, j: int| 0 <= i < j < new_es.len() implies name_lt(
        #[trigger] new_es[i].name@,
        #[trigger] new_es[j].name@,
    ) by {
        if j < k {
            assert(name_lt(old_es[i].name@, old_es[j].name@));
        } else if j == k {
            assert(name_lt(old_es[i].name@, e.name@));
        } else if i < k {
            assert(name_lt(old_es[i].name@, old_es[j - 1].name@));
        } else if i == k {
            assert(name_lt(e.name@, old_es[j - 1].name@));
        } else {
            assert(name_lt(old_es[i - 1].name@, old_es[j - 1].name@));
        }
    }
    lemma_view(before);
    lemma_view(after);
    let target = before@.insert(e.name@, e.node.model());
    assert forall|name: Seq<char>| after@.contains_key(name) == target.contains_key(name) by {
        if has(old_es, name) {
            let j = index_of(old_es, name);
            if j < k {
                assert(new_es[j].name@ == name);
            } else {
                assert(new_es[j + 1].name@ == name);
            }
        }
        if name == e.name@ {
            assert(new_es[k].name@ == name);
        }
        if has(new_es, name) {
            let j = index_of(new_es, name);
            if j < k {
                assert(old_es[j].name@ == name);
            } else if j > k {
                assert(old_es[j - 1].name@ == name);
            }
        }
    }
    assert forall|name: Seq<char>| after@.contains_key(name) implies after@[name] == target[name] by {
        let j = index_of(new_es, name);
        assert(after.entries[j].name@ == name);
        if j < k {
            assert(before.entries[j].name@ == name);
        } else if j > k {
            assert(before.entries[j - 1].name@ == name);
        }
    }
    assert(after@ =~= target);
}

/// A directory with one entry holds that entry's node and nothing else.
proof fn lemma_single(t: DirectoryTree, e: Entry)
    requires
        t.entries@ == seq![e],
    ensures
        sorted(t.entries@),
        t@ == DirModel::empty().insert(e.name@, e.node.model()),
{
    lemma_view(t);
    assert(t.entries@[0] == e);
    assert(t@ =~= DirModel::empty().insert(e.name@, e.node.model()));
}

/// Giving an entry another node under the same name puts that node in the view.
proof fn lemma_update(before: DirectoryTree, after: DirectoryTree, k: int, e: Entry)
    requires
        sorted(before.entries@),
        0 <= k < before.entries.len(),
        e.name@ == before.entries[k].name@,
        after.entries@ == before.entries@.update(k, e),
    ensures
        sorted(after.entries@),
        after@ == before@.insert(e.name@, e.node.model()),
{
    let old_es = before.entries@;
    let new_es = after.entries@;
    assert forall|i: int, j: int| 0 <= i < j < new_es.len() implies name_lt(
        #[trigger] new_es[i].name@,
        #[trigger] new_es[j].name@,
    ) by {
        assert(name_lt(old_es[i].name@, old_es[j].name@));
    }
    lemma_view(before);
    lemma_view(after);
    let target = before@.insert(e.name@, e.node.model());
    assert forall|name: Seq<char>| after@.contains_key(name) == target.contains_key(name) by {
        if has(old_es, name) {
            let j = index_of(old_es, name);
            assert(new_es[j].name@ == name);
        }
        if name == e.name@ {
            assert(new_es[k].name@ == name);
        }
        if has(new_es, name) {
            let j = index_of(new_es, name);
            assert(old_es[j].name@ == name);
        }
    }
    assert forall|name: Seq<char>| after@.contains_key(name) implies after@[name] == target[name] by {
        let j = index_of(new_es, name);
        assert(after.entries[j].name@ == name);
        assert(before.entries[j].name@ == name);
    }
    assert(after@ =~= target);
}

/// Taking an entry out takes its name out of the view.
proof fn lemma_remove(before: DirectoryTree, after: DirectoryTree, k: int)
    requires
        sorted(before.entries@),
        0 <= k < before.entries.len(),
        after.entries@ == before.entries@.remove(k),
    ensures
        sorted(after.entries@),
        after@ == before@.remove(before.entries[k].name@),
{
    lemma_names_ordered();
    let old_es = before.entries@;
    let new_es = after.entries@;
    assert forall|i: int, j: int| 0 <= i < j < new_es.len() implies name_lt(
        #[trigger] new_es[i].name@,
        #[trigger] new_es[j].name@,
    ) by {
        let a = if i < k { i } else { i + 1 };
        let b = if j < k { j } else { j + 1 };
        assert(name_lt(old_es[a].name@, old_es[b].name@));
    }
    lemma_view(before);
    lemma_view(after);
    let gone = before.entries[k].name@;
    let target = before@.remove(gone);
    assert forall|name: Seq<char>| after@.contains_key(name) == target.contains_key(name) by {
        if has(old_es, name) && name != gone {
            let j = index_of(old_es, name);
            if j < k {
                assert(new_es[j].name@ == name);
            } else {
                assert(new_es[j - 1].name@ == name);
            }
        }
        if has(new_es, name) {
            let j = index_of(new_es, name);
            if j < k {
                assert(old_es[j].name@ == name);
                assert(name_lt(old_es[j].name@, old_es[k].name@));
            } else {
                assert(old_es[j + 1].name@ == name);
                assert(name_lt(old_es[k].name@, old_es[j + 1].name@));
            }
        }
    }
    assert forall|name: Seq<char>| after@.contains_key(name) implies after@[name] == target[name] by {
        let j = index_of(new_es, name);
        assert(after.entries[j].name@ == name);
        if j < k {
            assert(before.entries[j].name@ == name);
        } else {
            assert(before.entries[j + 1].name@ == name);
        }
    }
    assert(after@ =~= target);
}

impl Default for DirectoryTree {
    /// A tree that holds nothing but its root.
    fn default() -> (t: Self)
        ensures
            t.wf(),
            t@ == DirModel::empty(),
    {
        DirectoryTree::new()
    }
}

impl DirectoryTree {
    /// Every directory of the tree keeps its entries in the strict order of
    /// their names, and every name is one that can stand in an address.
    pub closed spec fn wf(&self) -> bool
        decreases self,
    {
        &&& sorted(self.entries@) && named(self.entries@)
        &&& forall|i: int| 0 <= i < self.entries.len() ==> (#[trigger] self.entries[i]).node.wf()
    }

    /// A tree that holds nothing but its root.
    pub fn new() -> (t: DirectoryTree)
        ensures
            t.wf(),
            t@ == DirModel::empty(),
    {
        let t = DirectoryTree { entries: Vec::new() };
        assert(t@ =~= DirModel::empty());
        t
    }

    /// Looks for `name` among the entries: its position, or else the position
    /// at which an entry of that name would have to stand.
    fn find(&self, name: &str) -> (r: Result<usize, usize>)
        requires
            sorted(self.entries@),
        ensures
            match r {
                Ok(i) => i < self.entries.len() && self.entries[i as int].name@ == name@
                    && self@.contains_key(name@) && self@[name@] == self.entries[i as int].node.model(),
                Err(k) => {
                    &&& k <= self.entries.len()
                    &&& !self@.contains_key(name@)
                    &&& forall|j: int| 0 <= j < k ==> name_lt(#[trigger] self.entries[j].name@, name@)
                    &&& forall|j: int|
                        k <= j < self.entries.len() ==> name_lt(
                            name@,
                            #[trigger] self.entries[j].name@,
                        )
                },
            },
    {
        let mut lo: usize = 0;
        let mut hi: usize = self.entries.len();
        while lo < hi
            invariant
                lo <= hi <= self.entries.len(),
                sorted(self.entries@),
                forall|j: int| 0 <= j < lo ==> name_lt(#[trigger] self.entries[j].name@, name@),
                forall|j: int|
                    hi <= j < self.entries.len() ==> name_lt(name@, #[trigger] self.entries[j].name@),
            decreases hi - lo,
        {
            let mid = lo + (hi - lo) / 2;
            match compare_names(self.entries[mid].name.as_str(), name) {
                Relation::Equal => {
                    proof {
                        lemma_view(*self);
                    }
                    return Ok(mid);
                },
                Relation::Less => {
                    proof {
                        lemma_names_ordered();
                        assert forall|j: int| 0 <= j < mid + 1 implies name_lt(
                            #[trigger] self.entries[j].name@,
                            name@,
                        ) by {
                            if j < mid {
                                assert(name_lt(self.entries@[j].name@, self.entries@[mid as int].name@));
                            }
                        }
                    }
                    lo = mid + 1;
                },
                Relation::Greater => {
                    proof {
                        lemma_names_ordered();
                        assert(name_lt(name@, self.entries[mid as int].name@));
                        assert forall|j: int| mid <= j < self.entries.len() implies name_lt(
                            name@,
                            #[trigger] self.entries[j].name@,
                        ) by {
                            if mid < j {
                                assert(name_lt(self.entries@[mid as int].name@, self.entries@[j].name@));
                            }
                        }
                    }
                    hi = mid;
                },
            }
        }
        proof {
            lemma_names_ordered();
            lemma_view(*self);
            if has(self.entries@, name@) {
                let j = index_of(self.entries@, name@);
                assert(name_lt(self.entries[j].name@, name@) || name_lt(name@, self.entries[j].name@));
            }
        }
        Err(lo)
    }

    /// What `path` holds: a file, a directory, or nothing.
    pub fn stat(&self, path: &PathKey) -> (r: Option<NodeKind>)
        requires
            self.wf(),
        ensures
            match r {
                Some(k) => lookup(self@, path@) is Some && lookup(self@, path@)->Some_0.kind() == k,
                None => lookup(self@, path@) is None,
            },
    {
        let mut cur = self;
        let mut i: usize = 0;
        proof {
            assert(path@.skip(0) =~= path@);
        }
        while i < path.len()
            invariant
                i <= path@.len(),
                cur.wf(),
                lookup(self@, path@) == lookup(cur@, path@.skip(i as int)),
            decreases path@.len() - i,
        {
            proof {
                assert(path@.skip(i as int)[0] == path@[i as int]);
                assert(path@.skip(i as int).drop_first() =~= path@.skip(i + 1));
            }
            match cur.find(path.segment(i).as_str()) {
                Err(_) => {
                    return None;
                },
                Ok(k) => match &cur.entries[k].node {
                    Node::File(_) => {
                        if i + 1 == path.len() {
                            return Some(NodeKind::File);
                        } else {
                            return None;
                        }
                    },
                    Node::Dir(d) => {
                        cur = d;
                    },
                },
            }
            i = i + 1;
        }
        Some(NodeKind::Directory)
    }

    /// Tells whether `path` is a file or a directory of the tree.
    pub fn contains(&self, path: &PathKey) -> (r: bool)
        requires
            self.wf(),
        ensures
            r == (lookup(self@, path@) is Some),
    {
        self.stat(path).is_some()
    }

    /// The node `leaf` below the directories named by `path` from `from` on.
    fn fresh_node(path: &PathKey, from: usize, leaf: Node) -> (n: Node)
        requires
            from <= path@.len(),
            leaf.wf(),
        ensures
            n.wf(),
            n.model() == fresh(path@.skip(from as int), leaf.model()),
    {
        let mut node = leaf;
        let mut i: usize = path.len();
        proof {
            assert(path@.skip(i as int) =~= Seq::<Seq<char>>::empty());
        }
        while i > from
            invariant
                from <= i <= path@.len(),
                node.wf(),
                node.model() == fresh(path@.skip(i as int), leaf.model()),
            decreases i,
        {
            i = i - 1;
            let name = path.segment(i).clone();
            let mut entries: Vec<Entry> = Vec::new();
            let entry = Entry { name, node };
            entries.push(entry);
            let dir = DirectoryTree { entries };
            proof {
                assert(dir.entries@ =~= seq![entry]);
                lemma_single(dir, entry);
                assert(path@.skip(i as int)[0] == path@[i as int]);
                assert(path@.skip(i as int).drop_first() =~= path@.skip(i + 1));
            }
            node = Node::Dir(dir);
        }
        node
    }

    fn make_dirs_from(&mut self, path: &PathKey, from: usize) -> (r: Result<(), StoreError>)
        requires
            old(self).wf(),
            from <= path@.len(),
        ensures
            final(self).wf(),
            follows(make_dirs(old(self)@, path@.skip(from as int)), old(self)@, final(self)@, r),
        decreases path@.len() - from,
    {
        if from == path.len() {
            return Ok(());
        }
        proof {
            assert(path@.skip(from as int)[0] == path@[from as int]);
            assert(path@.skip(from as int).drop_first() =~= path@.skip(from + 1));
        }
        let name = path.segment(from);
        let found = self.find(name.as_str());
        let res = match found {
            Err(k) => {
                let leaf = Node::Dir(DirectoryTree::new());
                let node = Self::fresh_node(path, from + 1, leaf);
                let entry = Entry { name: name.clone(), node };
                self.entries.insert(k, entry);
                proof {
                    lemma_insert(*old(self), *self, k as int, entry);
                }
                Ok(())
            },
            Ok(i) => {
                let entry = &mut self.entries[i];
                match &mut entry.node {
                    Node::File(_) => Err(StoreError::PathCollision),
                    Node::Dir(sub) => sub.make_dirs_from(path, from + 1),
                }
            },
        };
        proof {
            if let Ok(i) = found {
                lemma_update(*old(self), *self, i as int, self.entries[i as int]);
                assert(res is Err ==> self@ =~= old(self)@);
            }
        }
        res
    }

    /// Makes every missing directory along `path`. Fails with
    /// `PathCollision`, and makes nothing, if a name of `path` is a file.
    pub fn create_dir_all(&mut self, path: &PathKey) -> (r: Result<(), StoreError>)
        requires
            old(self).wf(),
        ensures
            final(self).wf(),
            follows(make_dirs(old(self)@, path@), old(self)@, final(self)@, r),
    {
        proof {
            assert(path@.skip(0) =~= path@);
        }
        self.make_dirs_from(path, 0)
    }

    fn put_from(&mut self, path: &PathKey, from: usize, bytes: Vec<u8>) -> (r: Result<
        (),
        StoreError,
    >)
        requires
            old(self).wf(),
            from <= path@.len(),
        ensures
            final(self).wf(),
            follows(put_file(old(self)@, path@.skip(from as int), bytes@), old(self)@, final(self)@, r),
        decreases path@.len() - from,
    {
        if from == path.len() {
            return Err(StoreError::PathCollision);
        }
        proof {
            assert(path@.skip(from as int)[0] == path@[from as int]);
            assert(path@.skip(from as int).drop_first() =~= path@.skip(from + 1));
        }
        let name = path.segment(from);
        let last = from + 1 == path.len();
        let found = self.find(name.as_str());
        let res = match found {
            Err(k) => {
                let node = Self::fresh_node(path, from + 1, Node::File(bytes));
                let entry = Entry { name: name.clone(), node };
                self.entries.insert(k, entry);
                proof {
                    lemma_insert(*old(self), *self, k as int, entry);
                }
                Ok(())
            },
            Ok(i) => {
                let entry = &mut self.entries[i];
                match &mut entry.node {
                    Node::File(content) => {
                        if last {
                            *content = bytes;
                            Ok(())
                        } else {
                            Err(StoreError::PathCollision)
                        }
                    },
                    Node::Dir(sub) => sub.put_from(path, from + 1, bytes),
                }
            },
        };
        proof {
            if let Ok(i) = found {
                lemma_update(*old(self), *self, i as int, self.entries[i as int]);
                assert(res is Err ==> self@ =~= old(self)@);
            }
        }
        res
    }

    /// Gives the file at `path` the content `bytes`, making the file and its
    /// missing parent directories if need be. Fails with `PathCollision`, and
    /// changes nothing, if `path` is a directory or a name on the way is a file.
    pub fn write_file(&mut self, path: &PathKey, bytes: Vec<u8>) -> (r: Result<(), StoreError>)
        requires
            old(self).wf(),
        ensures
            final(self).wf(),
            follows(put_file(old(self)@, path@, bytes@), old(self)@, final(self)@, r),
    {
        proof {
            assert(path@.skip(0) =~= path@);
        }
        self.put_from(path, 0, bytes)
    }

    /// Reserves a file at `path`: a file that is there keeps its content, a
    /// missing one is made empty together with its missing parent directories.
    /// Fails with `PathCollision`, and changes nothing, if `path` is a
    /// directory or a name on the way is a file.
    pub fn create_file(&mut self, path: &PathKey) -> (r: Result<(), StoreError>)
        requires
            old(self).wf(),
        ensures
            final(self).wf(),
            follows(reserve_file(old(self)@, path@), old(self)@, final(self)@, r),
    {
        if self.file_at(path).is_ok() {
            Ok(())
        } else {
            self.write_file(path, Vec::new())
        }
    }

    fn remove_from(&mut self, path: &PathKey, from: usize) -> (r: Result<(), StoreError>)
        requires
            old(self).wf(),
            from <= path@.len(),
        ensures
            final(self).wf(),
            follows(remove_file(old(self)@, path@.skip(from as int)), old(self)@, final(self)@, r),
        decreases path@.len() - from,
    {
        if from == path.len() {
            return Err(StoreError::NotAFile);
        }
        proof {
            assert(path@.skip(from as int)[0] == path@[from as int]);
            assert(path@.skip(from as int).drop_first() =~= path@.skip(from + 1));
        }
        let name = path.segment(from);
        let last = from + 1 == path.len();
        match self.find(name.as_str()) {
            Err(_) => Err(StoreError::NotFound),
            Ok(i) => {
                match self.entries[i].node.kind() {
                    NodeKind::File => {
                        if last {
                            self.entries.remove(i);
                            proof {
                                lemma_remove(*old(self), *self, i as int);
                            }
                            Ok(())
                        } else {
                            Err(StoreError::NotADirectory)
                        }
                    },
                    NodeKind::Directory => {
                        let entry = &mut self.entries[i];
                        let res = match &mut entry.node {
                            Node::File(_) => Err(StoreError::NotAFile),
                            Node::Dir(sub) => sub.remove_from(path, from + 1),
                        };
                        proof {
                            lemma_update(*old(self), *self, i as int, self.entries[i as int]);
                            assert(res is Err ==> self@ =~= old(self)@);
                        }
                        res
                    },
                }
            },
        }
    }

    /// Removes the file at `path`. Fails with `NotFound` if nothing is there,
    /// with `NotAFile` if a directory is there, with `NotADirectory` if a name
    /// on the way is a file; nothing is removed then.
    pub fn remove_file(&mut self, path: &PathKey) -> (r: Result<(), StoreError>)
        requires
            old(self).wf(),
        ensures
            final(self).wf(),
            follows(remove_file(old(self)@, path@), old(self)@, final(self)@, r),
    {
        proof {
            assert(path@.skip(0) =~= path@);
        }
        self.remove_from(path, 0)
    }

    /// The content of the file at `path`.
    fn file_at(&self, path: &PathKey) -> (r: Result<&Vec<u8>, StoreError>)
        requires
            self.wf(),
        ensures
            match r {
                Ok(bytes) => resolve_file(self@, path@) == Ok::<Seq<u8>, StoreError>(bytes@),
                Err(e) => resolve_file(self@, path@) == Err::<Seq<u8>, StoreError>(e),
            },
    {
        let mut cur = self;
        let mut i: usize = 0;
        proof {
            assert(path@.skip(0) =~= path@);
        }
        while i < path.len()
            invariant
                i <= path@.len(),
                cur.wf(),
                resolve_file(self@, path@) == resolve_file(cur@, path@.skip(i as int)),
            decreases path@.len() - i,
        {
            proof {
                assert(path@.skip(i as int)[0] == path@[i as int]);
                assert(path@.skip(i as int).drop_first() =~= path@.skip(i + 1));
            }
            match cur.find(path.segment(i).as_str()) {
                Err(_) => {
                    return Err(StoreError::NotFound);
                },
                Ok(k) => match &cur.entries[k].node {
                    Node::File(bytes) => {
                        if i + 1 == path.len() {
                            return Ok(bytes);
                        } else {
                            return Err(StoreError::NotADirectory);
                        }
                    },
                    Node::Dir(d) => {
                        cur = d;
                    },
                },
            }
            i = i + 1;
        }
        Err(StoreError::NotAFile)
    }

    /// The directory at `path`.
    fn dir_at(&self, path: &PathKey) -> (r: Result<&DirectoryTree, StoreError>)
        requires
            self.wf(),
        ensures
            match r {
                Ok(d) => d.wf() && resolve_dir(self@, path@) == Ok::<DirModel, StoreError>(d@),
                Err(e) => resolve_dir(self@, path@) == Err::<DirModel, StoreError>(e),
            },
    {
        let mut cur = self;
        let mut i: usize = 0;
        proof {
            assert(path@.skip(0) =~= path@);
        }
        while i < path.len()
            invariant
                i <= path@.len(),
                cur.wf(),
                resolve_dir(self@, path@) == resolve_dir(cur@, path@.skip(i as int)),
            decreases path@.len() - i,
        {
            proof {
                assert(path@.skip(i as int)[0] == path@[i as int]);
                assert(path@.skip(i as int).drop_first() =~= path@.skip(i + 1));
            }
            match cur.find(path.segment(i).as_str()) {
                Err(_) => {
                    return Err(StoreError::NotFound);
                },
                Ok(k) => match &cur.entries[k].node {
                    Node::File(_) => {
                        return Err(StoreError::NotADirectory);
                    },
                    Node::Dir(d) => {
                        cur = d;
                    },
                },
            }
            i = i + 1;
        }
        Ok(cur)
    }

    /// The size in bytes of the file at `path`. Fails as `read_file` does.
    pub fn file_size(&self, path: &PathKey) -> (r: Result<u64, StoreError>)
        requires
            self.wf(),
        ensures
            match r {
                Ok(n) => resolve_file(self@, path@) is Ok && n == resolve_file(
                    self@,
                    path@,
                )->Ok_0.len(),
                Err(e) => resolve_file(self@, path@) == Err::<Seq<u8>, StoreError>(e),
            },
    {
        match self.file_at(path) {
            Ok(bytes) => Ok(bytes.len() as u64),
            Err(e) => Err(e),
        }
    }

    /// A copy of the content of the file at `path`. Fails with `NotFound` if
    /// nothing is there, with `NotAFile` if a directory is there, with
    /// `NotADirectory` if a name on the way is a file.
    pub fn read_file(&self, path: &PathKey) -> (r: Result<Vec<u8>, StoreError>)
        requires
            self.wf(),
        ensures
            match r {
                Ok(bytes) => resolve_file(self@, path@) == Ok::<Seq<u8>, StoreError>(bytes@),
                Err(e) => resolve_file(self@, path@) == Err::<Seq<u8>, StoreError>(e),
            },
    {
        match self.file_at(path) {
            Ok(bytes) => Ok(copy_bytes(bytes.as_slice())),
            Err(e) => Err(e),
        }
    }

    /// Opens the file at `path` for reading: a stream over the content that
    /// the file has now. Fails as `read_file` does.
    pub fn open(&self, path: &PathKey) -> (r: Result<ReadableStream, StoreError>)
        requires
            self.wf(),
        ensures
            match r {
                Ok(s) => resolve_file(self@, path@) == Ok::<Seq<u8>, StoreError>(s.content())
                    && s.position() == 0,
                Err(e) => resolve_file(self@, path@) == Err::<Seq<u8>, StoreError>(e),
            },
    {
        match self.read_file(path) {
            Ok(bytes) => Ok(ReadableStream::new(bytes)),
            Err(e) => Err(e),
        }
    }

    /// Opens the file at `path` for writing: reserves the file as
    /// `create_file` does and hands out an empty stream for it. What the
    /// file held before stays until the stream is committed.
    pub fn create(&mut self, path: &PathKey) -> (r: Result<WritableStream, StoreError>)
        requires
            old(self).wf(),
        ensures
            final(self).wf(),
            match r {
                Ok(s) => s.target() == path@ && s.buffered() == Seq::<u8>::empty() && follows(
                    reserve_file(old(self)@, path@),
                    old(self)@,
                    final(self)@,
                    Ok(()),
                ),
                Err(e) => follows(reserve_file(old(self)@, path@), old(self)@, final(self)@, Err(e)),
            },
    {
        match self.create_file(path) {
            Ok(_) => Ok(WritableStream::new(path.clone())),
            Err(e) => Err(e),
        }
    }

    /// Gives the file of the stream the bytes of the stream, in one step, as
    /// `write_file` does.
    pub fn commit(&mut self, stream: WritableStream) -> (r: Result<(), StoreError>)
        requires
            old(self).wf(),
        ensures
            final(self).wf(),
            follows(
                put_file(old(self)@, stream.target(), stream.buffered()),
                old(self)@,
                final(self)@,
                r,
            ),
    {
        let (path, bytes) = stream.into_parts();
        self.write_file(&path, bytes)
    }

    /// The nodes of the directory at `path`, each with its kind and a name
    /// that can be joined to `path`, in the order of their names. Fails with
    /// `NotFound` if nothing is there and with `NotADirectory` if `path` or a
    /// name on the way is a file.
    pub fn enumerate(&self, path: &PathKey) -> (r: Result<Vec<DirItem>, StoreError>)
        requires
            self.wf(),
        ensures
            match r {
                Ok(items) => resolve_dir(self@, path@) is Ok && is_listing(
                    resolve_dir(self@, path@)->Ok_0,
                    listing(items@),
                ) && joinable(listing(items@)),
                Err(e) => resolve_dir(self@, path@) == Err::<DirModel, StoreError>(e),
            },
    {
        match self.dir_at(path) {
            Err(e) => Err(e),
            Ok(dir) => {
                let mut items: Vec<DirItem> = Vec::new();
                let mut i: usize = 0;
                while i < dir.entries.len()
                    invariant
                        i <= dir.entries.len(),
                        items.len() == i,
                        forall|j: int|
                            0 <= j < i ==> (#[trigger] items[j]).name@ == dir.entries[j].name@
                                && items[j].kind == dir.entries[j].node.model().kind(),
                    decreases dir.entries.len() - i,
                {
                    let entry = &dir.entries[i];
                    items.push(DirItem { name: entry.name.clone(), kind: entry.node.kind() });
                    i = i + 1;
                }
                proof {
                    lemma_view(*dir);
                    let l = listing(items@);
                    assert forall|a: int, b: int| 0 <= a < b < l.len() implies name_lt(
                        #[trigger] l[a].0,
                        #[trigger] l[b].0,
                    ) by {
                        assert(l[a].0 == items[a].name@ && l[b].0 == items[b].name@);
                        assert(name_lt(dir.entries@[a].name@, dir.entries@[b].name@));
                    }
                    assert forall|a: int| 0 <= a < l.len() implies dir@.contains_key(
                        #[trigger] l[a].0,
                    ) && dir@[l[a].0].kind() == l[a].1 by {
                        assert(l[a].0 == items[a].name@);
                        assert(dir.entries[a].name@ == l[a].0);
                    }
                    assert forall|name: Seq<char>| #[trigger] dir@.contains_key(name) implies exists|
                        a: int,
                    |
                        0 <= a < l.len() && #[trigger] l[a].0 == name by {
                        let a = index_of(dir.entries@, name);
                        assert(l[a].0 == items[a].name@);
                    }
                }
                Ok(items)
            },
        }
    }
}

/// Every entry has a name that can stand in an address.
spec fn named(es: Seq<Entry>) -> bool {
    forall|i: int| 0 <= i < es.len() ==> valid_segment((#[trigger] es[i]).name@)
}

/// The lines of a listing as pairs of a name and a kind.
pub open spec fn listing(items: Seq<DirItem>) -> Seq<(Seq<char>, NodeKind)> {
    Seq::new(items.len(), |i: int| (items[i].name@, items[i].kind))
}

} // verus!
