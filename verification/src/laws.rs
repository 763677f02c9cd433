//! What holds of every repository: the laws that relate reading and
//! writing.
//!
//! The laws speak of graphs. `GitItem::edit` says of the repository it
//! leaves what `Graph::edit_outcome` and `Graph::committed` say; the read
//! operations return what `Graph::resolve`, `read`, `kind`, `present`,
//! `listing` and `blocked` say.

use crate::git::GitError;
use crate::graph::{
    lemma_index_of_is, target, unrelated, Entry, Graph, Node, ObjectId, ObjectKind, Resolution,
};
use vstd::prelude::*;

verus! {

/// The root is always there and is a directory, never a file.
pub proof fn law_root_is_directory(g: Graph)
    requires
        g.wf(),
        g.born(),
    ensures
        g.resolve(Seq::empty()) == Resolution::Tree(g.root()),
        g.is_tree(g.root()),
        g.present(Seq::empty()),
        g.kind(Seq::empty()) == Ok::<ObjectKind, GitError>(ObjectKind::Tree),
{
    assert(g.is_tree(g.commits[g.commits.len() - 1].tree));
}

/// A repository that nothing was written to is given an empty directory as
/// its root, in a well-formed graph with one snapshot.
pub proof fn law_first_snapshot_is_empty()
    ensures
        Graph::empty().initialized().wf(),
        Graph::empty().initialized().commits.len() == 1,
        Graph::empty().initialized().listing(Seq::empty()) == Ok::<Seq<Seq<Seq<u8>>>, GitError>(
            Seq::empty(),
        ),
{
    let g = Graph::empty().initialized();
    Graph::empty().lemma_initialized_wf();
    assert(g.root() == 0);
    assert(g.objects[0] == Node::Tree(Seq::<Entry>::empty()));
    assert(g.listing(Seq::empty())->Ok_0 =~= Seq::<Seq<Seq<u8>>>::empty());
}

/// Each entry of a directory stands below it: the directory's path with the
/// entry's name as one more segment leads to the entry's object.
pub proof fn law_children_stand(g: Graph, path: Seq<Seq<u8>>, tree: ObjectId, i: int)
    requires
        g.wf(),
        g.resolve(path) == Resolution::Tree(tree),
        0 <= i < g.entries(tree).len(),
    ensures
        g.resolve(path.push(g.entries(tree)[i].name)) == target(g.entries(tree)[i]),
        g.present(path.push(g.entries(tree)[i].name)),
{
    let entries = g.entries(tree);
    let name = entries[i].name;
    g.lemma_entries_refer(tree);
    assert forall|j: int| 0 <= j < i implies (#[trigger] entries[j]).name != name by {
        assert(entries[j].name != entries[i].name);
    }
    lemma_index_of_is(entries, name, i);
    let child = path.push(name);
    assert(child.drop_last() =~= path);
    assert(child.last() == name);
}

/// What stands at a path is listed in the directory above it: the listing
/// of the path without its last segment holds the path.
pub proof fn law_present_is_listed(g: Graph, path: Seq<Seq<u8>>)
    requires
        path.len() > 0,
        g.present(path),
    ensures
        g.listing(path.drop_last()) matches Ok(children) && children.contains(path),
{
    let parent = path.drop_last();
    let tree = g.resolve(parent)->Tree_0;
    let entries = g.entries(tree);
    crate::graph::lemma_index_of(entries, path.last());
    let i = crate::graph::index_of(entries, path.last());
    let children = g.listing(parent)->Ok_0;
    assert(parent.push(entries[i].name) =~= path);
    assert(children[i] == path);
}

/// Where something stands at a path, a directory stands at each of its
/// proper prefixes.
pub proof fn law_ancestors_are_directories(g: Graph, path: Seq<Seq<u8>>, k: int)
    requires
        g.present(path),
        0 <= k < path.len(),
    ensures
        g.resolve(path.take(k)) is Tree,
    decreases path.len(),
{
    let parent = path.drop_last();
    assert(g.resolve(parent) is Tree);
    if k == path.len() - 1 {
        assert(path.take(k) =~= parent);
    } else {
        law_ancestors_are_directories(g, parent, k);
        assert(path.take(k) =~= parent.take(k));
    }
}

/// A write is rejected with `CannotCreate` exactly where a proper prefix of
/// the path leads to a file.
pub proof fn law_blocked_write_is_rejected(g: Graph, path: Seq<Seq<u8>>, content: Seq<u8>)
    ensures
        g.blocked(path) <==> g.edit_outcome(path, content) == Err::<(), GitError>(
            GitError::CannotCreate,
        ),
{
    g.lemma_conflict_is_blocked(path);
}

/// A write that is not committed leaves every path as it was: the graph
/// with the blob written leads to the same objects and reads the same
/// content as the graph before, and has the same history.
pub proof fn law_rejected_write_keeps_all(g: Graph, content: Seq<u8>, path: Seq<Seq<u8>>)
    requires
        g.wf(),
        g.born(),
    ensures
        g.with_blob(content).commits == g.commits,
        g.with_blob(content).resolve(path) == g.resolve(path),
        g.with_blob(content).read(path) == g.read(path),
{
    let after = g.with_blob(content);
    g.lemma_resolve_within(after, path);
    g.lemma_resolve_valid(path);
    if let Resolution::Blob(b) = g.resolve(path) {
        assert(after.objects[b as int] == g.objects[b as int]);
    }
}

/// Where a write comes to `NoChange`, the file holds the content, the blob
/// is in the graph, and the write leaves the graph as it is.
pub proof fn law_no_change_means_same_content(g: Graph, path: Seq<Seq<u8>>, content: Seq<u8>)
    requires
        g.wf(),
        g.born(),
        g.edit_outcome(path, content) == Err::<(), GitError>(GitError::NoChange),
    ensures
        g.read(path) == Ok::<Seq<u8>, GitError>(content),
        g.with_blob(content) == g,
{
    g.lemma_resolve_valid(path);
    let b = g.resolve(path)->Blob_0;
    assert(g.is_blob(b) && g.content(b) == content);
}

/// The graph with the blob of a committed write is well-formed, and holds
/// the blob under the number that the rebuild speaks of.
proof fn lemma_stored(g: Graph, after: Graph, path: Seq<Seq<u8>>, content: Seq<u8>)
    requires
        g.wf(),
        after.wf(),
        path.len() > 0,
        g.with_blob(content).within(after),
        after.objects.len() == g.with_blob(content).objects.len() + path.len(),
    ensures
        g.with_blob(content).wf(),
        g.within(g.with_blob(content)),
        g.with_blob(content).is_blob(g.with_blob(content).blob_of(content)),
        g.with_blob(content).content(g.with_blob(content).blob_of(content)) == content,
        after.is_blob(g.with_blob(content).blob_of(content)),
        after.content(g.with_blob(content).blob_of(content)) == content,
{
    let stored = g.with_blob(content);
    if g.holds_blob(content) {
        let b = choose|b: ObjectId| g.is_blob(b) && #[trigger] g.content(b) == content;
        assert(stored.is_blob(b) && stored.content(b) == content);
    } else {
        g.lemma_push_wf(Node::Blob(content));
        let b = g.objects.len() as usize;
        assert(stored.is_blob(b) && stored.content(b) == content);
    }
    let id = stored.blob_of(content);
    assert(after.objects[id as int] == stored.objects[id as int]);
}

/// Writing, then reading: after a committed write the path leads to a file
/// that holds exactly the content written.
pub proof fn law_read_after_write(
    g: Graph,
    after: Graph,
    path: Seq<Seq<u8>>,
    content: Seq<u8>,
    message: Seq<char>,
)
    requires
        g.wf(),
        g.born(),
        after.wf(),
        path.len() > 0,
        g.committed(after, path, content, message),
    ensures
        after.read(path) == Ok::<Seq<u8>, GitError>(content),
{
    let stored = g.with_blob(content);
    lemma_stored(g, after, path, content);
    stored.lemma_rebuilt_leads(
        after,
        g.entries(g.root()),
        after.entries(after.root()),
        path,
        stored.blob_of(content),
    );
    after.lemma_resolve_is_walk(path);
}

/// A committed write adds exactly one snapshot to the history, with the
/// message given, and writing the same content again comes to `NoChange`
/// and leaves the graph as it is.
pub proof fn law_second_write_changes_nothing(
    g: Graph,
    after: Graph,
    path: Seq<Seq<u8>>,
    content: Seq<u8>,
    message: Seq<char>,
)
    requires
        g.wf(),
        g.born(),
        after.wf(),
        path.len() > 0,
        g.committed(after, path, content, message),
    ensures
        after.commits.len() == g.commits.len() + 1,
        after.commits.last().message == message,
        after.edit_outcome(path, content) == Err::<(), GitError>(GitError::NoChange),
        after.initialized().with_blob(content) == after,
{
    law_read_after_write(g, after, path, content, message);
    lemma_stored(g, after, path, content);
    let b = g.with_blob(content).blob_of(content);
    assert(after.is_blob(b) && after.content(b) == content);
}

/// A committed write leaves every path that is neither above nor below the
/// written path as it was: it leads to the same object and reads the same
/// content.
pub proof fn law_write_keeps_others(
    g: Graph,
    after: Graph,
    path: Seq<Seq<u8>>,
    content: Seq<u8>,
    message: Seq<char>,
    other: Seq<Seq<u8>>,
)
    requires
        g.wf(),
        g.born(),
        after.wf(),
        path.len() > 0,
        g.committed(after, path, content, message),
        unrelated(path, other),
    ensures
        after.resolve(other) == g.resolve(other),
        after.read(other) == g.read(other),
{
    let stored = g.with_blob(content);
    lemma_stored(g, after, path, content);
    assert(other.len() > 0) by {
        if other.len() == 0 {
            assert(other.is_prefix_of(path));
        }
    }
    assert(g.is_tree(g.commits[g.commits.len() - 1].tree));
    g.lemma_entries_refer(g.root());
    crate::graph::lemma_refer_more(g.objects, stored.objects, g.entries(g.root()));
    stored.lemma_rebuilt_keeps(
        after,
        g.entries(g.root()),
        after.entries(after.root()),
        path,
        stored.blob_of(content),
        other,
    );
    after.lemma_resolve_is_walk(other);
    g.lemma_resolve_is_walk(other);
    g.lemma_walk_within(stored, Resolution::Tree(g.root()), other);
    assert(stored.objects[g.root() as int] == g.objects[g.root() as int]);
    assert(stored.entries(g.root()) == g.entries(g.root()));
    g.lemma_resolve_valid(other);
    if let Resolution::Blob(b) = g.resolve(other) {
        assert(stored.objects[b as int] == g.objects[b as int]);
        assert(after.objects[b as int] == stored.objects[b as int]);
    }
}

} // verus!
