//! The object store: blobs, trees and snapshots, held in memory.
//!
//! Objects are never changed once written. A blob is written once for each
//! content, so that equal content means equal number; a tree is written
//! from a `TreeBuilder`; a snapshot names a root tree and becomes the head.
//!
//! Nothing here touches a disk. Whoever keeps a repository on disk reads
//! it into a `GitRepository` with `write_blob`, `write_tree` and `commit`,
//! and writes back the objects and snapshots that an operation added.

use crate::graph::{
    all_refer, find, lemma_index_of, lemma_index_of_is, lemma_put_well_named, put, refers,
    root_message, well_named, Entry, Graph, Node, ObjectId, ObjectKind, Resolution, Snapshot,
};
use crate::segments::{is_segment, PATH_SEPARATOR};
use crate::item::GitItem;
use crate::path::Path;
use vstd::prelude::*;
use vstd::slice::slice_to_vec;

verus! {

/// The mode of a tree entry for a file.
pub const FILE_MODE: u32 = 0o100644;

/// The mode of a tree entry for a directory.
pub const DIRECTORY_MODE: u32 = 0o040000;

/// Why an operation on an item did not give what was asked.
#[derive(Clone, Copy, Debug, PartialEq, Eq, Structural)]
pub enum GitError {
    /// Nothing stands at the path.
    NotFound,
    /// The root has no parent.
    NoParent,
    /// A directory stands where a file is asked for.
    IsDir,
    /// A file stands where a directory is asked for.
    IsFile,
    /// A file stands on the way to the path.
    CannotCreate,
    /// The file already holds the content.
    NoChange,
}

impl GitError {
    /// The error in words.
    pub fn to_string(&self) -> (text: String)
        ensures
            text@ == match self {
                GitError::NotFound => "Not found"@,
                GitError::NoParent => "No parent"@,
                GitError::IsDir => "Is directory"@,
                GitError::IsFile => "Is file"@,
                GitError::CannotCreate => "Cannot create file at that location"@,
                GitError::NoChange => "The file has not changed."@,
            },
    {
        match self {
            GitError::NotFound => "Not found".to_owned(),
            GitError::NoParent => "No parent".to_owned(),
            GitError::IsDir => "Is directory".to_owned(),
            GitError::IsFile => "Is file".to_owned(),
            GitError::CannotCreate => "Cannot create file at that location".to_owned(),
            GitError::NoChange => "The file has not changed.".to_owned(),
        }
    }
}

/// Whether two byte strings are equal.
pub fn bytes_eq(a: &[u8], b: &[u8]) -> (equal: bool)
    ensures
        equal == (a@ == b@),
{
    if a.len() != b.len() {
        return false;
    }
    let mut i: usize = 0;
    while i < a.len()
        invariant
            i <= a.len(),
            a.len() == b.len(),
            forall|j: int| 0 <= j < i ==> a@[j] == b@[j],
        decreases a.len() - i,
    {
        if a[i] != b[i] {
            return false;
        }
        i += 1;
    }
    assert(a@ =~= b@);
    true
}

/// Whether the bytes are a segment: not empty and without a separator.
pub fn is_segment_name(name: &[u8]) -> (segment: bool)
    ensures
        segment == is_segment(name@),
{
    if name.len() == 0 {
        return false;
    }
    let mut i: usize = 0;
    while i < name.len()
        invariant
            i <= name.len(),
            forall|j: int| 0 <= j < i ==> name@[j] != PATH_SEPARATOR,
        decreases name.len() - i,
    {
        if name[i] == PATH_SEPARATOR {
            return false;
        }
        i += 1;
    }
    true
}

/// One entry of a tree.
#[derive(Debug)]
pub struct TreeEntry {
    pub name: Vec<u8>,
    pub id: ObjectId,
    pub kind: ObjectKind,
    pub mode: u32,
}

impl View for TreeEntry {
    type V = Entry;

    open spec fn view(&self) -> Entry {
        Entry { name: self.name@, id: self.id, kind: self.kind, mode: self.mode }
    }
}

impl Clone for TreeEntry {
    fn clone(&self) -> (copy: TreeEntry)
        ensures
            copy@ == self@,
    {
        TreeEntry {
            name: slice_to_vec(self.name.as_slice()),
            id: self.id,
            kind: self.kind,
            mode: self.mode,
        }
    }
}

/// The entries as mathematical values.
pub open spec fn entries_view(entries: Seq<TreeEntry>) -> Seq<Entry> {
    Seq::new(entries.len(), |i: int| entries[i]@)
}

/// An object of the store.
#[derive(Debug)]
pub enum Object {
    /// The content of a file.
    Blob(Vec<u8>),
    /// The entries of a directory.
    Tree(Vec<TreeEntry>),
}

impl View for Object {
    type V = Node;

    open spec fn view(&self) -> Node {
        match self {
            Object::Blob(content) => Node::Blob(content@),
            Object::Tree(entries) => Node::Tree(entries_view(entries@)),
        }
    }
}

/// A snapshot of the store.
#[derive(Debug)]
pub struct Commit {
    pub tree: ObjectId,
    pub message: String,
}

impl View for Commit {
    type V = Snapshot;

    open spec fn view(&self) -> Snapshot {
        Snapshot { tree: self.tree, message: self.message@ }
    }
}

/// The objects as mathematical values.
pub open spec fn nodes(objects: Seq<Object>) -> Seq<Node> {
    Seq::new(objects.len(), |i: int| objects[i]@)
}

/// The snapshots as mathematical values.
pub open spec fn snapshots(commits: Seq<Commit>) -> Seq<Snapshot> {
    Seq::new(commits.len(), |i: int| commits[i]@)
}

/// A copy of the entries.
fn clone_entries(entries: &Vec<TreeEntry>) -> (copy: Vec<TreeEntry>)
    ensures
        entries_view(copy@) == entries_view(entries@),
{
    let mut copy: Vec<TreeEntry> = Vec::new();
    let mut i: usize = 0;
    while i < entries.len()
        invariant
            i <= entries.len(),
            copy@.len() == i,
            forall|j: int| 0 <= j < i ==> copy@[j]@ == entries@[j]@,
        decreases entries.len() - i,
    {
        copy.push(entries[i].clone());
        i += 1;
    }
    assert(entries_view(copy@) =~= entries_view(entries@));
    copy
}

/// A tree in the making: entries with distinct names, each a segment,
/// seeded from a tree of the store or empty, to which entries are put
/// before it is written.
pub struct TreeBuilder {
    entries: Vec<TreeEntry>,
}

impl View for TreeBuilder {
    type V = Seq<Entry>;

    closed spec fn view(&self) -> Seq<Entry> {
        entries_view(self.entries@)
    }
}

impl TreeBuilder {
    #[verifier::type_invariant]
    spec fn well_formed(&self) -> bool {
        well_named(entries_view(self.entries@))
    }

    /// A builder without entries.
    pub fn new() -> (builder: TreeBuilder)
        ensures
            builder@ == Seq::<Entry>::empty(),
    {
        let builder = TreeBuilder { entries: Vec::new() };
        assert(builder@ =~= Seq::<Entry>::empty());
        builder
    }

    /// The entry named `name`, if there is one.
    pub fn get(&self, name: &[u8]) -> (entry: Option<&TreeEntry>)
        ensures
            match entry {
                Some(e) => find(self@, name@) == Some(e@),
                None => find(self@, name@) is None,
            },
    {
        let mut i: usize = 0;
        while i < self.entries.len()
            invariant
                i <= self.entries.len(),
                forall|j: int| 0 <= j < i ==> (#[trigger] self@[j]).name != name@,
            decreases self.entries.len() - i,
        {
            if bytes_eq(self.entries[i].name.as_slice(), name) {
                proof {
                    lemma_index_of_is(self@, name@, i as int);
                }
                return Some(&self.entries[i]);
            }
            i += 1;
        }
        proof {
            lemma_index_of_is(self@, name@, i as int);
        }
        None
    }

    /// Puts an entry: in the place of the entry of its name, or at the end
    /// if there is none. A name that is no segment, empty or with a
    /// separator in it, is refused: nothing is put, and `false` returned.
    pub fn insert(&mut self, name: Vec<u8>, id: ObjectId, kind: ObjectKind, mode: u32) -> (put:
        bool)
        ensures
            put == is_segment(name@),
            final(self)@ == if put {
                self::put(old(self)@, Entry { name: name@, id, kind, mode })
            } else {
                old(self)@
            },
    {
        proof {
            use_type_invariant(&*self);
        }
        if !is_segment_name(name.as_slice()) {
            return false;
        }
        let ghost before = self@;
        let ghost e = Entry { name: name@, id, kind, mode };
        let mut entries: Vec<TreeEntry> = Vec::new();
        assert(entries_view(entries@) =~= Seq::<Entry>::empty());
        core::mem::swap(&mut self.entries, &mut entries);
        assert(entries_view(entries@) == before);
        let mut i: usize = 0;
        while i < entries.len() && !bytes_eq(entries[i].name.as_slice(), name.as_slice())
            invariant
                i <= entries.len(),
                entries_view(entries@) == before,
                forall|j: int| 0 <= j < i ==> (#[trigger] before[j]).name != name@,
            decreases entries.len() - i,
        {
            i += 1;
        }
        proof {
            lemma_index_of_is(before, name@, i as int);
            lemma_put_well_named(before, e);
        }
        let entry = TreeEntry { name, id, kind, mode };
        if i < entries.len() {
            entries[i] = entry;
            assert(entries_view(entries@) =~= before.update(i as int, e));
        } else {
            entries.push(entry);
            assert(entries_view(entries@) =~= before.push(e));
        }
        self.entries = entries;
        true
    }
}

/// What a repository holds: its objects, in the order they were written,
/// and its snapshots, oldest first.
struct State {
    objects: Vec<Object>,
    commits: Vec<Commit>,
}

/// A repository: a store of objects and the history of its snapshots.
///
/// The head is the newest snapshot. A repository without history is given
/// its first snapshot, of an empty tree, when the head is first asked for.
pub struct GitRepository {
    state: State,
}

impl View for GitRepository {
    type V = Graph;

    closed spec fn view(&self) -> Graph {
        Graph { objects: nodes(self.state.objects@), commits: snapshots(self.state.commits@) }
    }
}

impl GitRepository {
    #[verifier::type_invariant]
    spec fn well_formed(&self) -> bool {
        self@.wf()
    }

    /// A repository without objects and without history.
    pub fn new() -> (repo: GitRepository)
        ensures
            repo@ == Graph::empty(),
    {
        let state = State { objects: Vec::new(), commits: Vec::new() };
        assert(nodes(state.objects@) =~= Seq::<Node>::empty());
        assert(snapshots(state.commits@) =~= Seq::<Snapshot>::empty());
        GitRepository { state }
    }

    /// Takes the state out, leaving the repository empty.
    fn take(&mut self) -> (state: State)
        ensures
            nodes(state.objects@) == old(self)@.objects,
            snapshots(state.commits@) == old(self)@.commits,
            old(self)@.wf(),
    {
        proof {
            use_type_invariant(&*self);
        }
        let mut state = State { objects: Vec::new(), commits: Vec::new() };
        assert(nodes(state.objects@) =~= Seq::<Node>::empty());
        assert(snapshots(state.commits@) =~= Seq::<Snapshot>::empty());
        core::mem::swap(&mut self.state, &mut state);
        state
    }

    /// The root tree of the head. A repository without history is first
    /// given a snapshot of an empty tree.
    pub fn head(&mut self) -> (root: ObjectId)
        ensures
            final(self)@ == old(self)@.initialized(),
            final(self)@.wf(),
            root == final(self)@.root(),
            final(self)@.is_tree(root),
    {
        let ghost before = self@;
        let mut state = self.take();
        if state.commits.len() == 0 {
            let tree = state.objects.len();
            state.objects.push(Object::Tree(Vec::new()));
            let count = state.objects.len();
            state.commits.push(Commit { tree, message: "Root commit".to_owned() });
            proof {
                assert(entries_view(Seq::<TreeEntry>::empty()) =~= Seq::<Entry>::empty());
                assert(nodes(state.objects@) =~= before.objects.push(Node::Tree(Seq::empty())));
                assert(snapshots(state.commits@) =~= seq![
                    Snapshot { tree, message: root_message() },
                ]);
                before.lemma_initialized_wf();
            }
        }
        let root = state.commits[state.commits.len() - 1].tree;
        proof {
            let g = before.initialized();
            assert(g.is_tree(g.commits[g.commits.len() - 1].tree));
        }
        self.state = state;
        root
    }

    /// The number of the blob that holds `content`; the blob is written if
    /// there was none.
    pub fn write_blob(&mut self, content: &[u8]) -> (id: ObjectId)
        ensures
            final(self)@ == old(self)@.with_blob(content@),
            final(self)@.wf(),
            final(self)@.is_blob(id),
            final(self)@.content(id) == content@,
    {
        let ghost before = self@;
        let mut state = self.take();
        let mut i: usize = 0;
        while i < state.objects.len()
            invariant
                i <= state.objects.len(),
                nodes(state.objects@) == before.objects,
                snapshots(state.commits@) == before.commits,
                before == old(self)@,
                before.wf(),
                forall|j: ObjectId|
                    j < i ==> !(before.is_blob(j) && #[trigger] before.content(j) == content@),
            decreases state.objects.len() - i,
        {
            let found = match &state.objects[i] {
                Object::Blob(stored) => bytes_eq(stored.as_slice(), content),
                Object::Tree(_) => false,
            };
            if found {
                assert(before.is_blob(i) && before.content(i) == content@);
                self.state = state;
                return i;
            }
            i += 1;
        }
        let id = state.objects.len();
        state.objects.push(Object::Blob(slice_to_vec(content)));
        let count = state.objects.len();
        proof {
            assert(!before.holds_blob(content@));
            before.lemma_push_wf(Node::Blob(content@));
            assert(nodes(state.objects@) =~= before.objects.push(Node::Blob(content@)));
        }
        self.state = state;
        id
    }

    /// A builder with the entries of the tree `seed`, or without entries if
    /// no tree is given.
    pub fn tree_builder(&self, seed: Option<ObjectId>) -> (builder: TreeBuilder)
        ensures
            builder@ == match seed {
                Some(tree) => self@.entries(tree),
                None => Seq::<Entry>::empty(),
            },
    {
        proof {
            use_type_invariant(self);
        }
        if let Some(tree) = seed {
            if tree < self.state.objects.len() {
                if let Object::Tree(entries) = &self.state.objects[tree] {
                    let copy = clone_entries(entries);
                    proof {
                        self@.lemma_entries_refer(tree);
                    }
                    return TreeBuilder { entries: copy };
                }
            }
        }
        TreeBuilder::new()
    }

    /// Writes the builder's entries as a new tree and returns its number,
    /// unless an entry does not refer to an object of its kind: then
    /// nothing is written.
    pub fn write_tree(&mut self, builder: &TreeBuilder) -> (id: Option<ObjectId>)
        ensures
            match id {
                Some(tree) => all_refer(old(self)@.objects, builder@) && final(self)@ == old(
                    self,
                )@.with_tree(builder@) && tree == old(self)@.objects.len(),
                None => !all_refer(old(self)@.objects, builder@) && final(self)@ == old(self)@,
            },
            final(self)@.wf(),
    {
        proof {
            use_type_invariant(builder);
        }
        let ghost before = self@;
        let mut state = self.take();
        let mut i: usize = 0;
        while i < builder.entries.len()
            invariant
                i <= builder.entries.len(),
                nodes(state.objects@) == before.objects,
                snapshots(state.commits@) == before.commits,
                before == old(self)@,
                before.wf(),
                forall|k: int| 0 <= k < i ==> refers(before.objects, #[trigger] builder@[k]),
            decreases builder.entries.len() - i,
        {
            let entry = &builder.entries[i];
            let known = entry.id < state.objects.len() && match (
                &state.objects[entry.id],
                entry.kind,
            ) {
                (Object::Tree(_), ObjectKind::Tree) => true,
                (Object::Blob(_), ObjectKind::Blob) => true,
                _ => false,
            };
            if !known {
                assert(!refers(before.objects, builder@[i as int]));
                self.state = state;
                return None;
            }
            i += 1;
        }
        let id = state.objects.len();
        state.objects.push(Object::Tree(clone_entries(&builder.entries)));
        let count = state.objects.len();
        proof {
            before.lemma_push_wf(Node::Tree(builder@));
            assert(nodes(state.objects@) =~= before.objects.push(Node::Tree(builder@)));
        }
        self.state = state;
        Some(id)
    }

    /// Records a snapshot of the tree `tree`, which becomes the head, and
    /// returns its place in the history, unless `tree` is not the number of
    /// a tree: then nothing is recorded.
    pub fn commit(&mut self, tree: ObjectId, message: &str) -> (place: Option<usize>)
        ensures
            match place {
                Some(index) => old(self)@.is_tree(tree) && final(self)@ == old(self)@.with_commit(
                    tree,
                    message@,
                ) && index == old(self)@.commits.len(),
                None => !old(self)@.is_tree(tree) && final(self)@ == old(self)@,
            },
            final(self)@.wf(),
    {
        let ghost before = self@;
        let mut state = self.take();
        let is_tree = tree < state.objects.len() && match &state.objects[tree] {
            Object::Tree(_) => true,
            Object::Blob(_) => false,
        };
        if !is_tree {
            self.state = state;
            return None;
        }
        let index = state.commits.len();
        state.commits.push(Commit { tree, message: message.to_owned() });
        proof {
            before.lemma_commit_wf(tree, message@);
            assert(snapshots(state.commits@) =~= before.commits.push(
                Snapshot { tree, message: message@ },
            ));
        }
        self.state = state;
        Some(index)
    }

    /// The object written under `id`.
    pub fn object(&self, id: ObjectId) -> (object: Option<&Object>)
        ensures
            match object {
                Some(o) => id < self@.objects.len() && o@ == self@.objects[id as int],
                None => id >= self@.objects.len(),
            },
    {
        if id < self.state.objects.len() {
            Some(&self.state.objects[id])
        } else {
            None
        }
    }

    /// How many objects were written.
    pub fn object_count(&self) -> (count: usize)
        ensures
            count == self@.objects.len(),
    {
        self.state.objects.len()
    }

    /// The snapshot at `index` of the history, oldest first.
    pub fn snapshot(&self, index: usize) -> (snapshot: Option<&Commit>)
        ensures
            match snapshot {
                Some(c) => index < self@.commits.len() && c@ == self@.commits[index as int],
                None => index >= self@.commits.len(),
            },
    {
        if index < self.state.commits.len() {
            Some(&self.state.commits[index])
        } else {
            None
        }
    }

    /// The length of the history.
    pub fn history_len(&self) -> (count: usize)
        ensures
            count == self@.commits.len(),
    {
        self.state.commits.len()
    }

    /// What `name` leads to from `at`.
    pub fn child(&self, at: Resolution, name: &[u8]) -> (to: Resolution)
        ensures
            to == self@.child(at, name@),
    {
        match at {
            Resolution::Tree(tree) => {
                if tree < self.state.objects.len() {
                    if let Object::Tree(entries) = &self.state.objects[tree] {
                        let ghost es = entries_view(entries@);
                        assert(es == self@.entries(tree));
                        let mut i: usize = 0;
                        while i < entries.len()
                            invariant
                                i <= entries.len(),
                                es == entries_view(entries@),
                                es == self@.entries(tree),
                                at == Resolution::Tree(tree),
                                forall|j: int| 0 <= j < i ==> (#[trigger] es[j]).name != name@,
                            decreases entries.len() - i,
                        {
                            if bytes_eq(entries[i].name.as_slice(), name) {
                                proof {
                                    lemma_index_of_is(es, name@, i as int);
                                }
                                return match entries[i].kind {
                                    ObjectKind::Tree => Resolution::Tree(entries[i].id),
                                    ObjectKind::Blob => Resolution::Blob(entries[i].id),
                                };
                            }
                            i += 1;
                        }
                        proof {
                            lemma_index_of_is(es, name@, i as int);
                        }
                        return Resolution::Absent;
                    }
                }
                proof {
                    lemma_index_of(Seq::<Entry>::empty(), name@);
                }
                Resolution::Absent
            },
            Resolution::Blob(_) => Resolution::Conflict,
            Resolution::Absent => Resolution::Absent,
            Resolution::Conflict => Resolution::Conflict,
        }
    }

    /// The item at `path`.
    pub fn item(&self, path: Path) -> (item: Result<GitItem, GitError>)
        ensures
            item matches Ok(it) && it@ == path@,
    {
        Ok(GitItem::new(path))
    }
}

} // verus!
