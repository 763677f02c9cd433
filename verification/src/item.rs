//! Items: what stands at a path of a repository, and how it is read and
//! written.

use crate::git::{GitError, GitRepository, Object, TreeBuilder, DIRECTORY_MODE, FILE_MODE};
use crate::graph::{
    all_refer, child_in, lemma_find_put, lemma_index_of, lemma_put_refers, lemma_refer_more,
    outcome_at, Entry, ObjectId, ObjectKind, Resolution,
};
use crate::path::{pieces, Path};
use crate::segments::{join, lemma_segments_of_segment};
use vstd::prelude::*;
use vstd::slice::slice_to_vec;

verus! {

/// The place that a path names in a repository.
///
/// Every operation first gives a repository without history its first
/// snapshot, and then reads or writes the head.
pub struct GitItem {
    path: Path,
}

impl View for GitItem {
    type V = Seq<Seq<u8>>;

    closed spec fn view(&self) -> Seq<Seq<u8>> {
        self.path@
    }
}

/// The paths of the items.
pub open spec fn paths(items: Seq<GitItem>) -> Seq<Seq<Seq<u8>>> {
    Seq::new(items.len(), |i: int| items[i]@)
}

impl GitItem {
    /// The item at `path`.
    pub(crate) fn new(path: Path) -> (item: GitItem)
        ensures
            item@ == path@,
    {
        GitItem { path }
    }

    /// The item's path.
    pub fn path(&self) -> (path: &Path)
        ensures
            path@ == self@,
    {
        &self.path
    }

    /// The item that holds this one. The root has none.
    pub fn parent(&self) -> (parent: Result<GitItem, GitError>)
        ensures
            match parent {
                Ok(item) => self@.len() > 0 && item@ == self@.drop_last(),
                Err(e) => self@.len() == 0 && e == GitError::NoParent,
            },
    {
        if let Some(parent) = self.path.parent() {
            Ok(GitItem { path: parent })
        } else {
            Err(GitError::NoParent)
        }
    }

    /// What the item's path leads to: the root tree for the root; else
    /// what the last segment leads to from where the parent leads.
    pub fn resolve(&self, repo: &mut GitRepository) -> (to: Resolution)
        ensures
            final(repo)@ == old(repo)@.initialized(),
            final(repo)@.wf(),
            final(repo)@.born(),
            to == final(repo)@.resolve(self@),
        decreases self@.len(),
    {
        if self.path.is_empty() {
            let root = repo.head();
            proof {
                old(repo)@.lemma_initialized_born();
            }
            return Resolution::Tree(root);
        }
        match (self.parent(), self.path.filename()) {
            (Ok(parent), Some(name)) => {
                let at = parent.resolve(repo);
                assert(join(name@) == self@.last());
                repo.child(at, name.bytes())
            },
            _ => vstd::pervasive::unreached(),
        }
    }

    /// The content of the file at the path.
    pub fn content(&self, repo: &mut GitRepository) -> (content: Result<Vec<u8>, GitError>)
        ensures
            final(repo)@ == old(repo)@.initialized(),
            final(repo)@.wf(),
            match content {
                Ok(c) => final(repo)@.read(self@) == Ok::<Seq<u8>, GitError>(c@),
                Err(e) => final(repo)@.read(self@) == Err::<Seq<u8>, GitError>(e),
            },
    {
        match self.resolve(repo) {
            Resolution::Blob(id) => {
                proof {
                    repo@.lemma_resolve_valid(self@);
                }
                match repo.object(id) {
                    Some(Object::Blob(content)) => Ok(slice_to_vec(content.as_slice())),
                    _ => vstd::pervasive::unreached(),
                }
            },
            Resolution::Tree(_) => Err(GitError::IsDir),
            _ => Err(GitError::NotFound),
        }
    }

    /// The items of the directory at the path, in the order of its
    /// entries.
    pub fn list(&self, repo: &mut GitRepository) -> (items: Result<Vec<GitItem>, GitError>)
        ensures
            final(repo)@ == old(repo)@.initialized(),
            final(repo)@.wf(),
            match items {
                Ok(found) => final(repo)@.listing(self@) == Ok::<Seq<Seq<Seq<u8>>>, GitError>(
                    paths(found@),
                ),
                Err(e) => final(repo)@.listing(self@) == Err::<Seq<Seq<Seq<u8>>>, GitError>(e),
            },
    {
        match self.resolve(repo) {
            Resolution::Tree(id) => {
                proof {
                    repo@.lemma_resolve_valid(self@);
                }
                match repo.object(id) {
                    Some(Object::Tree(entries)) => {
                        let ghost es = repo@.entries(id);
                        proof {
                            repo@.lemma_entries_refer(id);
                        }
                        let mut items: Vec<GitItem> = Vec::new();
                        let mut i: usize = 0;
                        while i < entries.len()
                            invariant
                                i <= entries.len(),
                                es.len() == entries@.len(),
                                forall|k: int|
                                    0 <= k < es.len() ==> es[k].name == entries@[k].name@,
                                crate::graph::all_named(es),
                                items@.len() == i,
                                forall|k: int|
                                    0 <= k < i ==> (#[trigger] items@[k])@ == self@.push(
                                        es[k].name,
                                    ),
                            decreases entries.len() - i,
                        {
                            let mut path = self.path.clone();
                            proof {
                                lemma_segments_of_segment(es[i as int].name);
                                assert(self@ + seq![es[i as int].name] =~= self@.push(
                                    es[i as int].name,
                                ));
                            }
                            path.push(Path::from_vec(slice_to_vec(entries[i].name.as_slice())));
                            items.push(GitItem { path });
                            i += 1;
                        }
                        assert(paths(items@) =~= final(repo)@.listing(self@)->Ok_0);
                        Ok(items)
                    },
                    _ => vstd::pervasive::unreached(),
                }
            },
            Resolution::Blob(_) => Err(GitError::IsFile),
            _ => Err(GitError::NotFound),
        }
    }

    /// Whether something stands at the path.
    pub fn is_present(&self, repo: &mut GitRepository) -> (present: Result<bool, GitError>)
        ensures
            final(repo)@ == old(repo)@.initialized(),
            final(repo)@.wf(),
            present == Ok::<bool, GitError>(final(repo)@.present(self@)),
    {
        match self.resolve(repo) {
            Resolution::Blob(_) => Ok(true),
            Resolution::Tree(_) => Ok(true),
            _ => Ok(false),
        }
    }

    /// Whether a later write at the path could succeed without meeting a
    /// file on the way: whether no proper prefix of the path leads to a
    /// file.
    pub fn can_exist(&self, repo: &mut GitRepository) -> (can: Result<bool, GitError>)
        ensures
            final(repo)@ == old(repo)@.initialized(),
            final(repo)@.wf(),
            can == Ok::<bool, GitError>(!final(repo)@.blocked(self@)),
        decreases self@.len(),
    {
        if self.path.segments().len() <= 1 {
            let root = repo.head();
            proof {
                assert(pieces(self@).len() <= 1);
                repo@.lemma_conflict_is_blocked(self@);
                if self@.len() == 1 {
                    assert(self@.drop_last().len() == 0);
                }
            }
            Ok(true)
        } else {
            assert(pieces(self@).len() > 1);
            match self.parent() {
                Ok(parent) => {
                    let at = parent.resolve(repo);
                    proof {
                        repo@.lemma_conflict_is_blocked(self@);
                        repo@.lemma_conflict_is_blocked(parent@);
                    }
                    match at {
                        Resolution::Blob(_) => Ok(false),
                        _ => {
                            proof {
                                repo@.lemma_initialized_again();
                            }
                            parent.can_exist(repo)
                        },
                    }
                },
                Err(_) => vstd::pervasive::unreached(),
            }
        }
    }

    /// Writes `content` as the file at the path and commits the new
    /// snapshot with `message`. The path is not the root.
    ///
    /// Nothing is committed where a file stands on the way to the path
    /// (`CannotCreate`), where a directory stands at the path (`IsDir`), or
    /// where the file already holds the content (`NoChange`); the blob is
    /// written all the same.
    pub fn edit(&self, repo: &mut GitRepository, content: &[u8], message: &str) -> (done: Result<
        (),
        GitError,
    >)
        requires
            self@.len() > 0,
        ensures
            final(repo)@.wf(),
            done == old(repo)@.initialized().edit_outcome(self@, content@),
            match done {
                Ok(()) => old(repo)@.initialized().committed(
                    final(repo)@,
                    self@,
                    content@,
                    message@,
                ),
                Err(_) => final(repo)@ == old(repo)@.initialized().with_blob(content@),
            },
    {
        let root = repo.head();
        let ghost g0 = repo@;
        let blob = repo.write_blob(content);
        let ghost g1 = repo@;
        let mut builder = repo.tree_builder(Some(root));
        let ghost seed = builder@;
        proof {
            old(repo)@.lemma_initialized_born();
            assert(g0.within(g1));
            assert(g1.objects[root as int] == g0.objects[root as int]);
            assert(seed == g0.entries(root));
            g1.lemma_entries_refer(root);
            g0.lemma_resolve_is_walk(self@);
            g0.lemma_walk_within(g1, Resolution::Tree(root), self@);
            assert(g1.walk_in(seed, self@) == g0.resolve(self@));
            g0.lemma_resolve_valid(self@);
            if let Resolution::Blob(x) = g0.resolve(self@) {
                assert(g1.objects[x as int] == g0.objects[x as int]);
                if g0.content(x) == content@ {
                    g1.lemma_blob_unique(x, blob);
                }
            }
        }
        match Self::add_to_tree(repo, &mut builder, self.path.clone(), blob) {
            Err(e) => {
                return Err(e);
            },
            Ok(()) => {},
        }
        let ghost g2 = repo@;
        let ghost rebuilt = builder@;
        let written = repo.write_tree(&builder);
        let ghost g3 = repo@;
        match written {
            Some(new_root) => {
                let place = repo.commit(new_root, message);
                proof {
                    let g4 = repo@;
                    assert(g3.is_tree(new_root));
                    assert(g2.within(g4));
                    assert(g1.within(g4));
                    g1.lemma_rebuilt_within(g2, g4, seed, rebuilt, self@, blob);
                    assert(g4.root() == new_root);
                    assert(g4.entries(new_root) == rebuilt);
                    g1.lemma_blob_unique(blob, g1.blob_of(content@));
                    assert(g4.commits =~= g0.commits.push(
                        crate::graph::Snapshot { tree: new_root, message: message@ },
                    ));
                }
                Ok(())
            },
            None => vstd::pervasive::unreached(),
        }
    }

    /// Puts the blob `object` at `path` below the directory in the making
    /// `tree`: as an entry of `tree` where the path is one segment, else in
    /// a new tree for the directory that the first segment names, rebuilt
    /// in the same way, written to the repository and put as an entry of
    /// `tree`. Nothing is written or put where a file stands on the way, a
    /// directory at the path, or the blob itself.
    fn add_to_tree(
        repo: &mut GitRepository,
        tree: &mut TreeBuilder,
        mut path: Path,
        object: ObjectId,
    ) -> (done: Result<(), GitError>)
        requires
            path@.len() > 0,
            old(repo)@.wf(),
            all_refer(old(repo)@.objects, old(tree)@),
            old(repo)@.is_blob(object),
        ensures
            final(repo)@.wf(),
            done == outcome_at(old(repo)@.walk_in(old(tree)@, path@), object),
            match done {
                Ok(()) => {
                    &&& old(repo)@.within(final(repo)@)
                    &&& final(repo)@.commits == old(repo)@.commits
                    &&& final(repo)@.objects.len() == old(repo)@.objects.len() + path@.len() - 1
                    &&& all_refer(final(repo)@.objects, final(tree)@)
                    &&& old(repo)@.rebuilt(final(repo)@, old(tree)@, final(tree)@, path@, object)
                },
                Err(_) => final(repo)@ == old(repo)@ && final(tree)@ == old(tree)@,
            },
        decreases path@.len(),
    {
        let ghost g = repo@;
        let ghost entries = tree@;
        let ghost p = path@;
        if path.segments().len() == 1 {
            assert(pieces(p).len() == 1);
            assert(p.skip(1).len() == 0);
            match path.filename() {
                Some(filename) => {
                    let name = filename.bytes();
                    assert(name@ == p[0]);
                    let found = match tree.get(name) {
                        Some(entry) => Some((entry.kind, entry.id)),
                        None => None,
                    };
                    match found {
                        Some((ObjectKind::Tree, _)) => {
                            return Err(GitError::IsDir);
                        },
                        Some((ObjectKind::Blob, id)) => {
                            if id == object {
                                return Err(GitError::NoChange);
                            }
                        },
                        None => {},
                    }
                    proof {
                        filename.lemma_view_segments();
                    }
                    let put = tree.insert(slice_to_vec(name), object, ObjectKind::Blob, FILE_MODE);
                    proof {
                        let e = Entry {
                            name: p[0],
                            id: object,
                            kind: ObjectKind::Blob,
                            mode: FILE_MODE,
                        };
                        lemma_put_refers(g.objects, entries, e);
                    }
                    Ok(())
                },
                None => vstd::pervasive::unreached(),
            }
        } else {
            assert(pieces(p).len() != 1);
            match path.pop_first() {
                Some(first) => {
                    let name = first.bytes();
                    let ghost rest = path@;
                    assert(name@ == p[0]);
                    assert(rest == p.skip(1));
                    let found = match tree.get(name) {
                        Some(entry) => Some((entry.kind, entry.id)),
                        None => None,
                    };
                    let mut sub = match found {
                        Some((ObjectKind::Tree, id)) => repo.tree_builder(Some(id)),
                        Some((ObjectKind::Blob, _)) => {
                            proof {
                                g.lemma_walk_from_nothing(child_in(entries, p[0]), rest);
                            }
                            return Err(GitError::CannotCreate);
                        },
                        None => repo.tree_builder(None),
                    };
                    let ghost below = sub@;
                    proof {
                        assert(below == g.below(entries, p[0]));
                        match child_in(entries, p[0]) {
                            Resolution::Tree(t) => {
                                g.lemma_entries_refer(t);
                            },
                            _ => {
                                lemma_index_of(Seq::<Entry>::empty(), rest[0]);
                                g.lemma_walk_from_nothing(child_in(entries, p[0]), rest);
                                g.lemma_walk_from_nothing(Resolution::Absent, rest.skip(1));
                            },
                        }
                        assert(g.walk_in(entries, p) == g.walk_in(below, rest));
                    }
                    match Self::add_to_tree(repo, &mut sub, path, object) {
                        Err(e) => {
                            return Err(e);
                        },
                        Ok(()) => {},
                    }
                    let ghost g1 = repo@;
                    let ghost made = sub@;
                    match repo.write_tree(&sub) {
                        Some(id) => {
                            proof {
                                first.lemma_view_segments();
                            }
                            let put = tree.insert(
                                slice_to_vec(name),
                                id,
                                ObjectKind::Tree,
                                DIRECTORY_MODE,
                            );
                            proof {
                                let g2 = repo@;
                                let e = Entry {
                                    name: p[0],
                                    id,
                                    kind: ObjectKind::Tree,
                                    mode: DIRECTORY_MODE,
                                };
                                assert(g1.within(g2));
                                assert(g.within(g2));
                                assert(g2.entries(id) == made);
                                lemma_find_put(entries, e, p[0]);
                                g.lemma_rebuilt_within(g1, g2, below, made, rest, object);
                                lemma_refer_more(g.objects, g2.objects, entries);
                                lemma_put_refers(g2.objects, entries, e);
                            }
                            Ok(())
                        },
                        None => vstd::pervasive::unreached(),
                    }
                },
                None => vstd::pervasive::unreached(),
            }
        }
    }

    /// Whether a directory stands at the path.
    pub fn is_dir(&self, repo: &mut GitRepository) -> (dir: Result<bool, GitError>)
        ensures
            final(repo)@ == old(repo)@.initialized(),
            final(repo)@.wf(),
            match dir {
                Ok(is) => final(repo)@.kind(self@) matches Ok(kind) && is == (kind
                    == ObjectKind::Tree),
                Err(e) => final(repo)@.kind(self@) == Err::<ObjectKind, GitError>(e),
            },
    {
        match self.resolve(repo) {
            Resolution::Tree(_) => Ok(true),
            Resolution::Blob(_) => Ok(false),
            _ => Err(GitError::NotFound),
        }
    }

    /// Whether a file stands at the path.
    pub fn is_file(&self, repo: &mut GitRepository) -> (file: Result<bool, GitError>)
        ensures
            final(repo)@ == old(repo)@.initialized(),
            final(repo)@.wf(),
            match file {
                Ok(is) => final(repo)@.kind(self@) matches Ok(kind) && is == (kind
                    == ObjectKind::Blob),
                Err(e) => final(repo)@.kind(self@) == Err::<ObjectKind, GitError>(e),
            },
    {
        match self.resolve(repo) {
            Resolution::Blob(_) => Ok(true),
            Resolution::Tree(_) => Ok(false),
            _ => Err(GitError::NotFound),
        }
    }
}

} // verus!
