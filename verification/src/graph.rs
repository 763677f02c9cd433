//! The object graph as a mathematical value.
//!
//! A `Graph` is what a repository holds: objects, each a blob or a tree,
//! numbered in the order they were written, and the snapshots made of
//! them, oldest first. This module says what it means to resolve a path in
//! a graph and proves the facts about resolution that the operations rest
//! on.

use crate::git::{GitError, DIRECTORY_MODE, FILE_MODE};
use crate::segments::is_segment;
use vstd::prelude::*;

verus! {

/// The number under which an object was written.
pub type ObjectId = usize;

/// What an entry of a tree refers to.
#[derive(Clone, Copy, Debug, PartialEq, Eq, Structural)]
pub enum ObjectKind {
    /// File content.
    Blob,
    /// A directory.
    Tree,
}

/// One entry of a tree: a name and the object that stands under it.
#[verifier::ext_equal]
pub struct Entry {
    pub name: Seq<u8>,
    pub id: ObjectId,
    pub kind: ObjectKind,
    pub mode: u32,
}

/// An object: the content of a file, or the entries of a directory.
#[verifier::ext_equal]
pub enum Node {
    Blob(Seq<u8>),
    Tree(Seq<Entry>),
}

/// A snapshot: the root tree and the message it was recorded with. Its
/// parent is the snapshot before it.
#[verifier::ext_equal]
pub struct Snapshot {
    pub tree: ObjectId,
    pub message: Seq<char>,
}

/// All that a repository holds.
#[verifier::ext_equal]
pub struct Graph {
    pub objects: Seq<Node>,
    pub commits: Seq<Snapshot>,
}

/// What a path leads to.
#[derive(Clone, Copy, Debug, PartialEq, Eq, Structural)]
pub enum Resolution {
    /// A file.
    Blob(ObjectId),
    /// A directory.
    Tree(ObjectId),
    /// Nothing: the name is missing from a directory on the way.
    Absent,
    /// Nothing: a file stands where the path needs a directory.
    Conflict,
}

/// The message of the snapshot that a repository without history is given.
pub open spec fn root_message() -> Seq<char> {
    "Root commit"@
}

/// The index of the first entry named `name`, or the number of entries if
/// there is none.
pub open spec fn index_of(entries: Seq<Entry>, name: Seq<u8>) -> int
    decreases entries.len(),
{
    if entries.len() == 0 || entries[0].name == name {
        0
    } else {
        1 + index_of(entries.skip(1), name)
    }
}

/// The first entry named `name`.
pub open spec fn find(entries: Seq<Entry>, name: Seq<u8>) -> Option<Entry> {
    let i = index_of(entries, name);
    if 0 <= i < entries.len() {
        Some(entries[i])
    } else {
        None
    }
}

/// No two entries share a name.
pub open spec fn distinct_names(entries: Seq<Entry>) -> bool {
    forall|i: int, j: int|
        0 <= i < j < entries.len() ==> (#[trigger] entries[i]).name != (#[trigger] entries[j]).name
}

/// Every entry's name is a segment: not empty and without a separator.
pub open spec fn all_named(entries: Seq<Entry>) -> bool {
    forall|k: int| 0 <= k < entries.len() ==> is_segment((#[trigger] entries[k]).name)
}

/// The entries can stand in one directory: their names are segments, and
/// no two are equal.
pub open spec fn well_named(entries: Seq<Entry>) -> bool {
    distinct_names(entries) && all_named(entries)
}

/// The entries with `e` in the place of the entry of its name, or at the
/// end if there was none.
pub open spec fn put(entries: Seq<Entry>, e: Entry) -> Seq<Entry> {
    let i = index_of(entries, e.name);
    if 0 <= i < entries.len() {
        entries.update(i, e)
    } else {
        entries.push(e)
    }
}

/// What an entry leads to.
pub open spec fn target(e: Entry) -> Resolution {
    match e.kind {
        ObjectKind::Tree => Resolution::Tree(e.id),
        ObjectKind::Blob => Resolution::Blob(e.id),
    }
}

/// What `name` leads to in a directory with these entries.
pub open spec fn child_in(entries: Seq<Entry>, name: Seq<u8>) -> Resolution {
    match find(entries, name) {
        Some(e) => target(e),
        None => Resolution::Absent,
    }
}

/// What a write of the blob `blob` comes to where the path leads to `at`.
pub open spec fn outcome_at(at: Resolution, blob: ObjectId) -> Result<(), GitError> {
    match at {
        Resolution::Conflict => Err(GitError::CannotCreate),
        Resolution::Tree(_) => Err(GitError::IsDir),
        Resolution::Blob(b) => if b == blob {
            Err(GitError::NoChange)
        } else {
            Ok(())
        },
        Resolution::Absent => Ok(()),
    }
}

/// Neither path is a prefix of the other.
pub open spec fn unrelated(p: Seq<Seq<u8>>, q: Seq<Seq<u8>>) -> bool {
    !p.is_prefix_of(q) && !q.is_prefix_of(p)
}

/// Each entry refers to an object of its kind among `objects`.
pub open spec fn all_refer(objects: Seq<Node>, entries: Seq<Entry>) -> bool {
    forall|k: int| 0 <= k < entries.len() ==> refers(objects, #[trigger] entries[k])
}

/// The entry refers to an object of its kind among `objects`.
pub open spec fn refers(objects: Seq<Node>, e: Entry) -> bool {
    &&& e.id < objects.len()
    &&& match e.kind {
        ObjectKind::Tree => objects[e.id as int] is Tree,
        ObjectKind::Blob => objects[e.id as int] is Blob,
    }
}

impl Graph {
    /// The graph of a repository that nothing was written to.
    pub open spec fn empty() -> Graph {
        Graph { objects: Seq::empty(), commits: Seq::empty() }
    }

    /// `id` is the number of a tree.
    pub open spec fn is_tree(self, id: ObjectId) -> bool {
        id < self.objects.len() && self.objects[id as int] is Tree
    }

    /// `id` is the number of a blob.
    pub open spec fn is_blob(self, id: ObjectId) -> bool {
        id < self.objects.len() && self.objects[id as int] is Blob
    }

    /// The entries of the tree `id`.
    pub open spec fn entries(self, id: ObjectId) -> Seq<Entry> {
        if self.is_tree(id) {
            self.objects[id as int]->Tree_0
        } else {
            Seq::empty()
        }
    }

    /// The content of the blob `id`.
    pub open spec fn content(self, id: ObjectId) -> Seq<u8> {
        if self.is_blob(id) {
            self.objects[id as int]->Blob_0
        } else {
            Seq::empty()
        }
    }

    /// The invariant of a graph. Its objects can be numbered; a tree's
    /// entries have distinct names, each a segment, and refer to objects
    /// written before it, each of its entry's kind; no two blobs hold the
    /// same content; every snapshot's root is a tree.
    pub open spec fn wf(self) -> bool {
        &&& self.objects.len() <= usize::MAX
        &&& forall|i: int|
            0 <= i < self.objects.len() ==> (#[trigger] self.objects[i] matches Node::Tree(es)
                ==> well_named(es) && all_refer(self.objects.take(i), es))
        &&& forall|i: int, j: int|
            0 <= i < j < self.objects.len() && self.objects[i] is Blob
                ==> #[trigger] self.objects[i] != #[trigger] self.objects[j]
        &&& forall|c: int|
            0 <= c < self.commits.len() ==> self.is_tree((#[trigger] self.commits[c]).tree)
    }

    /// Some blob holds `content`.
    pub open spec fn holds_blob(self, content: Seq<u8>) -> bool {
        exists|i: ObjectId| self.is_blob(i) && #[trigger] self.content(i) == content
    }

    /// The graph with a blob of `content`: itself if it holds one, else
    /// with one written as its newest object.
    pub open spec fn with_blob(self, content: Seq<u8>) -> Graph {
        if self.holds_blob(content) {
            self
        } else {
            Graph { objects: self.objects.push(Node::Blob(content)), commits: self.commits }
        }
    }

    /// The graph with a tree of `entries` written as its newest object.
    pub open spec fn with_tree(self, entries: Seq<Entry>) -> Graph {
        Graph { objects: self.objects.push(Node::Tree(entries)), commits: self.commits }
    }

    /// The graph with one more snapshot, of the tree `tree`.
    pub open spec fn with_commit(self, tree: ObjectId, message: Seq<char>) -> Graph {
        Graph { objects: self.objects, commits: self.commits.push(Snapshot { tree, message }) }
    }

    /// There is a snapshot.
    pub open spec fn born(self) -> bool {
        self.commits.len() > 0
    }

    /// The graph with a first snapshot, of an empty root tree, if it had
    /// none; else the graph itself.
    pub open spec fn initialized(self) -> Graph {
        if self.born() {
            self
        } else {
            Graph {
                objects: self.objects.push(Node::Tree(Seq::empty())),
                commits: seq![
                    Snapshot { tree: self.objects.len() as usize, message: root_message() },
                ],
            }
        }
    }

    /// The root tree of the current snapshot.
    pub open spec fn root(self) -> ObjectId {
        self.commits.last().tree
    }

    /// `g` holds every object of `self` under its number, and maybe more.
    pub open spec fn within(self, g: Graph) -> bool {
        self.objects.is_prefix_of(g.objects)
    }

    /// A resolution that names an object names one of this graph, of the
    /// kind it says.
    pub open spec fn valid(self, r: Resolution) -> bool {
        match r {
            Resolution::Tree(t) => self.is_tree(t),
            Resolution::Blob(b) => self.is_blob(b),
            _ => true,
        }
    }

    /// One step of resolution: what `name` leads to from `at`. Below a
    /// directory it is what the directory's entry of that name leads to, or
    /// absent; below a file there is a conflict; below nothing, nothing.
    pub open spec fn child(self, at: Resolution, name: Seq<u8>) -> Resolution {
        match at {
            Resolution::Tree(t) => child_in(self.entries(t), name),
            Resolution::Blob(_) => Resolution::Conflict,
            Resolution::Absent => Resolution::Absent,
            Resolution::Conflict => Resolution::Conflict,
        }
    }

    /// What the path leads to: the root tree for the empty path; else what
    /// its last segment leads to from where its parent leads.
    pub open spec fn resolve(self, path: Seq<Seq<u8>>) -> Resolution
        decreases path.len(),
    {
        if path.len() == 0 {
            Resolution::Tree(self.root())
        } else {
            self.child(self.resolve(path.drop_last()), path.last())
        }
    }

    /// What the path leads to from `from`, taking its segments front to
    /// back.
    pub open spec fn walk(self, from: Resolution, path: Seq<Seq<u8>>) -> Resolution
        decreases path.len(),
    {
        if path.len() == 0 {
            from
        } else {
            self.walk(self.child(from, path[0]), path.skip(1))
        }
    }

    /// What a non-empty path leads to from a directory with these entries.
    pub open spec fn walk_in(self, entries: Seq<Entry>, path: Seq<Seq<u8>>) -> Resolution {
        self.walk(child_in(entries, path[0]), path.skip(1))
    }

    /// Whether something stands at the path.
    pub open spec fn present(self, path: Seq<Seq<u8>>) -> bool {
        self.resolve(path) is Blob || self.resolve(path) is Tree
    }

    /// What kind of object stands at the path.
    pub open spec fn kind(self, path: Seq<Seq<u8>>) -> Result<ObjectKind, GitError> {
        match self.resolve(path) {
            Resolution::Blob(_) => Ok(ObjectKind::Blob),
            Resolution::Tree(_) => Ok(ObjectKind::Tree),
            _ => Err(GitError::NotFound),
        }
    }

    /// The content of the file at the path.
    pub open spec fn read(self, path: Seq<Seq<u8>>) -> Result<Seq<u8>, GitError> {
        match self.resolve(path) {
            Resolution::Blob(b) => Ok(self.content(b)),
            Resolution::Tree(_) => Err(GitError::IsDir),
            _ => Err(GitError::NotFound),
        }
    }

    /// The paths of the children of the directory at the path, in the
    /// order of its entries: the path with each entry's name as one more
    /// segment.
    pub open spec fn listing(self, path: Seq<Seq<u8>>) -> Result<Seq<Seq<Seq<u8>>>, GitError> {
        match self.resolve(path) {
            Resolution::Tree(t) => Ok(
                Seq::new(
                    self.entries(t).len(),
                    |i: int| path.push(self.entries(t)[i].name),
                ),
            ),
            Resolution::Blob(_) => Err(GitError::IsFile),
            _ => Err(GitError::NotFound),
        }
    }

    /// The entries of the directory that `name` leads to among `entries`,
    /// or none if it leads to no directory.
    pub open spec fn below(self, entries: Seq<Entry>, name: Seq<u8>) -> Seq<Entry> {
        match child_in(entries, name) {
            Resolution::Tree(t) => self.entries(t),
            _ => Seq::empty(),
        }
    }

    /// How a directory is rebuilt for a write. `new_entries` is
    /// `old_entries` with the entry for the path's first segment put: for
    /// the last segment of the path, where no directory stood, an entry for
    /// the blob; else, where no file stood, an entry for a tree that `self`
    /// did not hold and whose entries in `after` are rebuilt in the same way
    /// along the rest of the path, from those of the directory that stood
    /// there, or from none.
    pub open spec fn rebuilt(
        self,
        after: Graph,
        old_entries: Seq<Entry>,
        new_entries: Seq<Entry>,
        path: Seq<Seq<u8>>,
        blob: ObjectId,
    ) -> bool
        decreases path.len(),
    {
        if path.len() == 0 {
            false
        } else if path.len() == 1 {
            &&& !(child_in(old_entries, path[0]) is Tree)
            &&& new_entries == put(
                old_entries,
                Entry { name: path[0], id: blob, kind: ObjectKind::Blob, mode: FILE_MODE },
            )
        } else {
            match child_in(new_entries, path[0]) {
                Resolution::Tree(t) => {
                    &&& !(child_in(old_entries, path[0]) is Blob)
                    &&& new_entries == put(
                        old_entries,
                        Entry {
                            name: path[0],
                            id: t,
                            kind: ObjectKind::Tree,
                            mode: DIRECTORY_MODE,
                        },
                    )
                    &&& self.objects.len() <= t
                    &&& self.rebuilt(
                        after,
                        self.below(old_entries, path[0]),
                        after.entries(t),
                        path.skip(1),
                        blob,
                    )
                },
                _ => false,
            }
        }
    }

    /// The number of the blob that holds `content`.
    pub open spec fn blob_of(self, content: Seq<u8>) -> ObjectId {
        choose|b: ObjectId| self.is_blob(b) && #[trigger] self.content(b) == content
    }

    /// What a write of `content` at the path comes to: rejected where a
    /// file stands on the way or a directory at the path, nothing to do
    /// where the file holds the content, else done.
    pub open spec fn edit_outcome(self, path: Seq<Seq<u8>>, content: Seq<u8>) -> Result<
        (),
        GitError,
    > {
        match self.resolve(path) {
            Resolution::Conflict => Err(GitError::CannotCreate),
            Resolution::Tree(_) => Err(GitError::IsDir),
            Resolution::Blob(b) => if self.content(b) == content {
                Err(GitError::NoChange)
            } else {
                Ok(())
            },
            Resolution::Absent => Ok(()),
        }
    }

    /// `after` is this graph after a write of `content` at the non-empty
    /// path was committed with `message`. The blob is there, written if
    /// it was not; one tree was written for each segment of the path and
    /// nothing else; the newest object is the root of the one new
    /// snapshot; and the root is the old root rebuilt along the path.
    pub open spec fn committed(
        self,
        after: Graph,
        path: Seq<Seq<u8>>,
        content: Seq<u8>,
        message: Seq<char>,
    ) -> bool {
        let stored = self.with_blob(content);
        &&& stored.within(after)
        &&& after.objects.len() == stored.objects.len() + path.len()
        &&& after.commits == self.commits.push(
            Snapshot { tree: (after.objects.len() - 1) as usize, message },
        )
        &&& stored.rebuilt(
            after,
            self.entries(self.root()),
            after.entries(after.root()),
            path,
            stored.blob_of(content),
        )
    }

    /// Some proper prefix of the path leads to a file.
    pub open spec fn blocked(self, path: Seq<Seq<u8>>) -> bool {
        exists|k: int| 0 <= k < path.len() && #[trigger] self.resolve(path.take(k)) is Blob
    }
}

/// `index_of` stays within the entries, no entry before it has the name,
/// and the entry at it has the name unless it is the length.
pub proof fn lemma_index_of(entries: Seq<Entry>, name: Seq<u8>)
    ensures
        0 <= index_of(entries, name) <= entries.len(),
        forall|j: int| 0 <= j < index_of(entries, name) ==> (#[trigger] entries[j]).name != name,
        index_of(entries, name) < entries.len() ==> entries[index_of(entries, name)].name == name,
    decreases entries.len(),
{
    if entries.len() == 0 || entries[0].name == name {
    } else {
        let rest = entries.skip(1);
        lemma_index_of(rest, name);
        assert forall|j: int| 0 <= j < index_of(entries, name) implies (#[trigger] entries[j]).name
            != name by {
            if j > 0 {
                assert(entries[j] == rest[j - 1]);
            }
        }
        if index_of(entries, name) < entries.len() {
            assert(entries[index_of(entries, name)] == rest[index_of(entries, name) - 1]);
        }
    }
}

/// An index with no entry of the name before it, that is the length or
/// holds an entry of the name, is `index_of`.
pub proof fn lemma_index_of_is(entries: Seq<Entry>, name: Seq<u8>, i: int)
    requires
        0 <= i <= entries.len(),
        forall|j: int| 0 <= j < i ==> (#[trigger] entries[j]).name != name,
        i < entries.len() ==> entries[i].name == name,
    ensures
        index_of(entries, name) == i,
    decreases entries.len(),
{
    if entries.len() == 0 || entries[0].name == name {
        if i > 0 {
            assert(entries[0].name != name);
        }
    } else {
        let rest = entries.skip(1);
        assert forall|j: int| 0 <= j < i - 1 implies (#[trigger] rest[j]).name != name by {
            assert(rest[j] == entries[j + 1]);
        }
        if i < entries.len() {
            assert(rest[i - 1] == entries[i]);
        }
        lemma_index_of_is(rest, name, i - 1);
    }
}

/// After `put`, the name of the new entry leads to it and every other name
/// to what it led to before.
pub proof fn lemma_find_put(entries: Seq<Entry>, e: Entry, name: Seq<u8>)
    ensures
        find(put(entries, e), name) == if name == e.name {
            Some(e)
        } else {
            find(entries, name)
        },
{
    let i = index_of(entries, e.name);
    let after = put(entries, e);
    lemma_index_of(entries, e.name);
    lemma_index_of(entries, name);
    let n = index_of(entries, name);
    if name == e.name {
        assert forall|j: int| 0 <= j < i implies (#[trigger] after[j]).name != name by {
            assert(after[j] == entries[j]);
        }
        lemma_index_of_is(after, name, i);
    } else {
        assert forall|j: int| 0 <= j < n implies (#[trigger] after[j]).name != name by {
            if j != i {
                assert(after[j] == entries[j]);
            }
        }
        if n < entries.len() {
            assert(n != i);
            assert(after[n] == entries[n]);
            lemma_index_of_is(after, name, n);
        } else {
            assert forall|j: int| 0 <= j < after.len() implies (#[trigger] after[j]).name
                != name by {
                if j != i {
                    assert(after[j] == entries[j]);
                }
            }
            lemma_index_of_is(after, name, after.len() as int);
        }
    }
}

/// `put` keeps the names distinct.
pub proof fn lemma_put_distinct(entries: Seq<Entry>, e: Entry)
    requires
        distinct_names(entries),
    ensures
        distinct_names(put(entries, e)),
{
    let i = index_of(entries, e.name);
    let after = put(entries, e);
    lemma_index_of(entries, e.name);
    assert forall|a: int, b: int| 0 <= a < b < after.len() implies (#[trigger] after[a]).name != (
    #[trigger] after[b]).name by {
        if i < entries.len() {
            if a == i {
                assert(after[b] == entries[b]);
                assert(entries[i].name != entries[b].name);
            } else if b == i {
                assert(after[a] == entries[a]);
                assert(entries[a].name != entries[i].name);
            } else {
                assert(after[a] == entries[a]);
                assert(after[b] == entries[b]);
            }
        } else {
            assert(after[a] == entries[a]);
            if b < entries.len() {
                assert(after[b] == entries[b]);
            }
        }
    }
}

/// `put` of an entry whose name is a segment keeps the entries fit for one
/// directory.
pub proof fn lemma_put_well_named(entries: Seq<Entry>, e: Entry)
    requires
        well_named(entries),
        is_segment(e.name),
    ensures
        well_named(put(entries, e)),
{
    lemma_put_distinct(entries, e);
    let i = index_of(entries, e.name);
    let after = put(entries, e);
    lemma_index_of(entries, e.name);
    assert forall|k: int| 0 <= k < after.len() implies is_segment((#[trigger] after[k]).name) by {
        if k != i && k < entries.len() {
            assert(after[k] == entries[k]);
        }
    }
}

/// `put` of an entry that refers to an object keeps all entries referring.
pub proof fn lemma_put_refers(objects: Seq<Node>, entries: Seq<Entry>, e: Entry)
    requires
        all_refer(objects, entries),
        refers(objects, e),
    ensures
        all_refer(objects, put(entries, e)),
{
    let i = index_of(entries, e.name);
    let after = put(entries, e);
    lemma_index_of(entries, e.name);
    assert forall|k: int| 0 <= k < after.len() implies refers(objects, #[trigger] after[k]) by {
        if k != i && k < entries.len() {
            assert(after[k] == entries[k]);
        }
    }
}

/// Entries that refer among some objects refer among any extension of them.
pub proof fn lemma_refer_more(objects: Seq<Node>, more: Seq<Node>, entries: Seq<Entry>)
    requires
        all_refer(objects, entries),
        objects.is_prefix_of(more),
    ensures
        all_refer(more, entries),
{
    assert forall|k: int| 0 <= k < entries.len() implies refers(more, #[trigger] entries[k]) by {
        assert(refers(objects, entries[k]));
        assert(more[entries[k].id as int] == objects[entries[k].id as int]);
    }
}

/// What a name leads to among referring entries is an object of the graph.
pub proof fn lemma_child_in_valid(g: Graph, entries: Seq<Entry>, name: Seq<u8>)
    requires
        all_refer(g.objects, entries),
    ensures
        g.valid(child_in(entries, name)),
{
    lemma_index_of(entries, name);
    let i = index_of(entries, name);
    if i < entries.len() {
        assert(refers(g.objects, entries[i]));
    }
}

impl Graph {
    /// The entries of a tree of a well-formed graph refer to its objects.
    pub proof fn lemma_entries_refer(self, t: ObjectId)
        requires
            self.wf(),
        ensures
            all_refer(self.objects, self.entries(t)),
            well_named(self.entries(t)),
    {
        if self.is_tree(t) {
            let es = self.entries(t);
            assert(self.objects[t as int] matches Node::Tree(x) && x == es);
            assert(all_refer(self.objects.take(t as int), es));
            lemma_refer_more(self.objects.take(t as int), self.objects, es);
        }
    }

    /// A step from an object of the graph leads to an object of the graph.
    pub proof fn lemma_child_valid(self, at: Resolution, name: Seq<u8>)
        requires
            self.wf(),
            self.valid(at),
        ensures
            self.valid(self.child(at, name)),
    {
        if let Resolution::Tree(t) = at {
            self.lemma_entries_refer(t);
            lemma_child_in_valid(self, self.entries(t), name);
        }
    }

    /// A walk from an object of the graph leads to an object of the graph.
    pub proof fn lemma_walk_valid(self, from: Resolution, path: Seq<Seq<u8>>)
        requires
            self.wf(),
            self.valid(from),
        ensures
            self.valid(self.walk(from, path)),
        decreases path.len(),
    {
        if path.len() > 0 {
            self.lemma_child_valid(from, path[0]);
            self.lemma_walk_valid(self.child(from, path[0]), path.skip(1));
        }
    }

    /// From nothing a walk leads to nothing, and below a file there is
    /// only conflict.
    pub proof fn lemma_walk_from_nothing(self, from: Resolution, path: Seq<Seq<u8>>)
        ensures
            from is Absent ==> self.walk(from, path) is Absent,
            from is Conflict ==> self.walk(from, path) is Conflict,
            from is Blob && path.len() > 0 ==> self.walk(from, path) is Conflict,
        decreases path.len(),
    {
        if path.len() > 0 {
            self.lemma_walk_from_nothing(self.child(from, path[0]), path.skip(1));
        }
    }

    /// A walk along a path with one more segment is the walk along the
    /// path and then one step.
    pub proof fn lemma_walk_push(self, from: Resolution, path: Seq<Seq<u8>>, name: Seq<u8>)
        ensures
            self.walk(from, path.push(name)) == self.child(self.walk(from, path), name),
        decreases path.len(),
    {
        let longer = path.push(name);
        if path.len() == 0 {
            assert(longer.skip(1) =~= Seq::<Seq<u8>>::empty());
            assert(longer[0] == name);
            assert(self.walk(self.child(from, name), longer.skip(1)) == self.child(from, name));
        } else {
            assert(longer.skip(1) =~= path.skip(1).push(name));
            assert(longer[0] == path[0]);
            self.lemma_walk_push(self.child(from, path[0]), path.skip(1), name);
        }
    }

    /// Resolving a path is walking it from the root tree.
    pub proof fn lemma_resolve_is_walk(self, path: Seq<Seq<u8>>)
        ensures
            self.resolve(path) == self.walk(Resolution::Tree(self.root()), path),
        decreases path.len(),
    {
        if path.len() > 0 {
            self.lemma_resolve_is_walk(path.drop_last());
            self.lemma_walk_push(Resolution::Tree(self.root()), path.drop_last(), path.last());
            assert(path.drop_last().push(path.last()) =~= path);
        }
    }

    /// A walk from an object of a well-formed graph is the same in every
    /// graph that holds the first within it: what was written stays.
    pub proof fn lemma_walk_within(self, g: Graph, from: Resolution, path: Seq<Seq<u8>>)
        requires
            self.wf(),
            self.within(g),
            self.valid(from),
        ensures
            g.walk(from, path) == self.walk(from, path),
        decreases path.len(),
    {
        if path.len() > 0 {
            if let Resolution::Tree(t) = from {
                assert(g.objects[t as int] == self.objects[t as int]);
                assert(g.entries(t) == self.entries(t));
            }
            assert(g.child(from, path[0]) == self.child(from, path[0]));
            self.lemma_child_valid(from, path[0]);
            self.lemma_walk_within(g, self.child(from, path[0]), path.skip(1));
        }
    }

    /// Where the same tree is the root, and what was written stays, every
    /// path leads to the same.
    pub proof fn lemma_resolve_within(self, g: Graph, path: Seq<Seq<u8>>)
        requires
            self.wf(),
            self.born(),
            self.within(g),
            g.root() == self.root(),
        ensures
            g.resolve(path) == self.resolve(path),
    {
        self.lemma_resolve_is_walk(path);
        g.lemma_resolve_is_walk(path);
        assert(self.is_tree(self.commits[self.commits.len() - 1].tree));
        self.lemma_walk_within(g, Resolution::Tree(self.root()), path);
    }

    /// Every path of a well-formed graph with a snapshot leads to an object
    /// of the graph, or to nothing.
    pub proof fn lemma_resolve_valid(self, path: Seq<Seq<u8>>)
        requires
            self.wf(),
            self.born(),
        ensures
            self.valid(self.resolve(path)),
    {
        self.lemma_resolve_is_walk(path);
        assert(self.is_tree(self.commits[self.commits.len() - 1].tree));
        self.lemma_walk_valid(Resolution::Tree(self.root()), path);
    }

    /// A path leads to a conflict exactly if a proper prefix of it leads
    /// to a file.
    pub proof fn lemma_conflict_is_blocked(self, path: Seq<Seq<u8>>)
        ensures
            self.resolve(path) is Conflict <==> self.blocked(path),
        decreases path.len(),
    {
        if path.len() == 0 {
        } else {
            let parent = path.drop_last();
            self.lemma_conflict_is_blocked(parent);
            assert(path.take(path.len() - 1) =~= parent);
            if self.resolve(path) is Conflict {
                if self.resolve(parent) is Blob {
                    assert(self.resolve(path.take(path.len() - 1)) is Blob);
                } else {
                    assert(self.resolve(parent) is Conflict);
                    let k = choose|k: int|
                        0 <= k < parent.len() && #[trigger] self.resolve(parent.take(k)) is Blob;
                    assert(path.take(k) =~= parent.take(k));
                }
            }
            if self.blocked(path) {
                let k = choose|k: int|
                    0 <= k < path.len() && #[trigger] self.resolve(path.take(k)) is Blob;
                if k < parent.len() {
                    assert(path.take(k) =~= parent.take(k));
                    assert(self.blocked(parent));
                }
            }
        }
    }

    /// One more object, a blob unlike the others or a tree whose entries
    /// refer to what is there, leaves a well-formed graph well-formed.
    pub proof fn lemma_push_wf(self, node: Node)
        requires
            self.wf(),
            self.objects.len() < usize::MAX,
            match node {
                Node::Blob(content) => !self.holds_blob(content),
                Node::Tree(entries) => well_named(entries) && all_refer(self.objects, entries),
            },
        ensures
            (Graph { objects: self.objects.push(node), commits: self.commits }).wf(),
            self.within(Graph { objects: self.objects.push(node), commits: self.commits }),
    {
        let g = Graph { objects: self.objects.push(node), commits: self.commits };
        let n = self.objects.len() as int;
        assert forall|i: int| 0 <= i < g.objects.len() implies (#[trigger] g.objects[i]
            matches Node::Tree(es) ==> well_named(es) && all_refer(g.objects.take(i), es)) by {
            if i < n {
                assert(g.objects[i] == self.objects[i]);
                assert(g.objects.take(i) =~= self.objects.take(i));
            } else {
                assert(g.objects.take(i) =~= self.objects);
            }
        }
        assert forall|i: int, j: int|
            0 <= i < j < g.objects.len() && g.objects[i] is Blob implies #[trigger] g.objects[i]
            != #[trigger] g.objects[j] by {
            assert(g.objects[i] == self.objects[i]);
            if j < n {
                assert(g.objects[j] == self.objects[j]);
            } else if let Node::Blob(content) = node {
                assert(self.is_blob(i as usize));
                assert(self.content(i as usize) != content);
            }
        }
        assert forall|c: int| 0 <= c < g.commits.len() implies g.is_tree(
            (#[trigger] g.commits[c]).tree,
        ) by {
            assert(self.is_tree(self.commits[c].tree));
            let t = self.commits[c].tree as int;
            assert(g.objects[t] == self.objects[t]);
        }
    }

    /// One more snapshot of a tree leaves a well-formed graph well-formed.
    pub proof fn lemma_commit_wf(self, tree: ObjectId, message: Seq<char>)
        requires
            self.wf(),
            self.is_tree(tree),
        ensures
            self.with_commit(tree, message).wf(),
    {
        let g = self.with_commit(tree, message);
        assert forall|c: int| 0 <= c < g.commits.len() implies g.is_tree(
            (#[trigger] g.commits[c]).tree,
        ) by {
            if c < self.commits.len() {
                assert(g.commits[c] == self.commits[c]);
            }
        }
    }

    /// In a well-formed graph a blob is known by its content.
    pub proof fn lemma_blob_unique(self, a: ObjectId, b: ObjectId)
        requires
            self.wf(),
            self.is_blob(a),
            self.is_blob(b),
            self.content(a) == self.content(b),
        ensures
            a == b,
    {
        if a < b {
            assert(self.objects[a as int] != self.objects[b as int]);
            assert(self.objects[a as int] =~= self.objects[b as int]);
        } else if b < a {
            assert(self.objects[b as int] != self.objects[a as int]);
            assert(self.objects[b as int] =~= self.objects[a as int]);
        }
    }

    /// A rebuild stays one in every graph that holds its result within it.
    pub proof fn lemma_rebuilt_within(
        self,
        after: Graph,
        later: Graph,
        old_entries: Seq<Entry>,
        new_entries: Seq<Entry>,
        path: Seq<Seq<u8>>,
        blob: ObjectId,
    )
        requires
            after.wf(),
            after.within(later),
            all_refer(after.objects, new_entries),
            self.rebuilt(after, old_entries, new_entries, path, blob),
        ensures
            self.rebuilt(later, old_entries, new_entries, path, blob),
        decreases path.len(),
    {
        if path.len() > 1 {
            let t = child_in(new_entries, path[0])->Tree_0;
            lemma_child_in_valid(after, new_entries, path[0]);
            assert(later.objects[t as int] == after.objects[t as int]);
            assert(later.entries(t) == after.entries(t));
            after.lemma_entries_refer(t);
            self.lemma_rebuilt_within(
                after,
                later,
                self.below(old_entries, path[0]),
                after.entries(t),
                path.skip(1),
                blob,
            );
        }
    }

    /// After a rebuild along a path, the path leads to the blob.
    pub proof fn lemma_rebuilt_leads(
        self,
        after: Graph,
        old_entries: Seq<Entry>,
        new_entries: Seq<Entry>,
        path: Seq<Seq<u8>>,
        blob: ObjectId,
    )
        requires
            self.rebuilt(after, old_entries, new_entries, path, blob),
        ensures
            after.walk_in(new_entries, path) == Resolution::Blob(blob),
        decreases path.len(),
    {
        if path.len() == 1 {
            let e = Entry { name: path[0], id: blob, kind: ObjectKind::Blob, mode: FILE_MODE };
            lemma_find_put(old_entries, e, path[0]);
        } else {
            let t = child_in(new_entries, path[0])->Tree_0;
            let rest = path.skip(1);
            self.lemma_rebuilt_leads(
                after,
                self.below(old_entries, path[0]),
                after.entries(t),
                rest,
                blob,
            );
        }
    }

    /// After a rebuild along a path, every path that is neither above nor
    /// below it leads where it led before.
    pub proof fn lemma_rebuilt_keeps(
        self,
        after: Graph,
        old_entries: Seq<Entry>,
        new_entries: Seq<Entry>,
        path: Seq<Seq<u8>>,
        blob: ObjectId,
        other: Seq<Seq<u8>>,
    )
        requires
            self.wf(),
            self.within(after),
            all_refer(self.objects, old_entries),
            self.rebuilt(after, old_entries, new_entries, path, blob),
            other.len() > 0,
            unrelated(path, other),
        ensures
            after.walk_in(new_entries, other) == self.walk_in(old_entries, other),
        decreases path.len(),
    {
        let first = path[0];
        if other[0] != first {
            let e = if path.len() == 1 {
                Entry { name: first, id: blob, kind: ObjectKind::Blob, mode: FILE_MODE }
            } else {
                Entry {
                    name: first,
                    id: child_in(new_entries, first)->Tree_0,
                    kind: ObjectKind::Tree,
                    mode: DIRECTORY_MODE,
                }
            };
            lemma_find_put(old_entries, e, other[0]);
            lemma_child_in_valid(self, old_entries, other[0]);
            self.lemma_walk_within(after, child_in(old_entries, other[0]), other.skip(1));
        } else {
            if path.len() == 1 {
                assert(path.is_prefix_of(other));
            } else if other.len() == 1 {
                assert(other.is_prefix_of(path));
            } else {
                let t = child_in(new_entries, first)->Tree_0;
                let rest = path.skip(1);
                let tail = other.skip(1);
                let sub = self.below(old_entries, first);
                assert(unrelated(rest, tail)) by {
                    if rest.is_prefix_of(tail) {
                        assert forall|i: int| 0 <= i < path.len() implies path[i] == other[i] by {
                            if i > 0 {
                                assert(rest[i - 1] == tail[i - 1]);
                            }
                        }
                        assert(path.is_prefix_of(other));
                    }
                    if tail.is_prefix_of(rest) {
                        assert forall|i: int| 0 <= i < other.len() implies other[i] == path[i] by {
                            if i > 0 {
                                assert(tail[i - 1] == rest[i - 1]);
                            }
                        }
                        assert(other.is_prefix_of(path));
                    }
                }
                lemma_child_in_valid(self, old_entries, first);
                match child_in(old_entries, first) {
                    Resolution::Tree(t0) => {
                        self.lemma_entries_refer(t0);
                    },
                    _ => {
                        lemma_index_of(Seq::<Entry>::empty(), tail[0]);
                        self.lemma_walk_from_nothing(child_in(old_entries, first), tail);
                        self.lemma_walk_from_nothing(Resolution::Absent, tail.skip(1));
                    },
                }
                self.lemma_rebuilt_keeps(after, sub, after.entries(t), rest, blob, tail);
            }
        }
    }

    /// A graph that was given its first snapshot has one, and is not
    /// given another.
    pub proof fn lemma_initialized_born(self)
        ensures
            self.initialized().born(),
            self.initialized().initialized() == self.initialized(),
    {
    }

    /// A graph with a snapshot is not given another first one.
    pub proof fn lemma_initialized_again(self)
        requires
            self.born(),
        ensures
            self.initialized() == self,
    {
    }

    /// The first snapshot of a well-formed graph leaves it well-formed.
    pub proof fn lemma_initialized_wf(self)
        requires
            self.wf(),
            self.born() || self.objects.len() < usize::MAX,
        ensures
            self.initialized().wf(),
            self.initialized().born(),
            self.within(self.initialized()),
            self.initialized().initialized() == self.initialized(),
    {
        if !self.born() {
            let g = self.initialized();
            let n = self.objects.len() as int;
            assert forall|i: int| 0 <= i < g.objects.len() implies (#[trigger] g.objects[i]
                matches Node::Tree(es) ==> well_named(es) && all_refer(g.objects.take(i), es)) by {
                if i < n {
                    assert(g.objects[i] == self.objects[i]);
                    assert(g.objects.take(i) =~= self.objects.take(i));
                }
            }
            assert forall|i: int, j: int|
                0 <= i < j < g.objects.len() && g.objects[i] is Blob implies #[trigger] g.objects[i]
                != #[trigger] g.objects[j] by {
                assert(g.objects[i] == self.objects[i]);
                if j < n {
                    assert(g.objects[j] == self.objects[j]);
                }
            }
            assert(g.commits[0].tree == n);
        }
    }
}

} // verus!
