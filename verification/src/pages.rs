//! Pages: what is shown for a request, decided from what the repository
//! holds. Rendering and sending are left to the caller.

use crate::filetype::{filetype_of, markdown_html, ContentType, Filetype};
use crate::git::{GitError, GitRepository};
use crate::graph::{Graph, ObjectKind, Resolution};
use crate::item::{paths, GitItem};
use crate::laws::law_children_stand;
use crate::order::{ascending, child_order, compare_bytes, ChildKey, Order};
use crate::path::{slash_if, Path, PathStringBuilder};
use crate::percent::percent_encoded;
use crate::segments::{join, segments_of};
use crate::text::{lossy, text_of};
use std::cmp::Ordering;
use vstd::prelude::*;
use vstd::utf8::{decode_utf8, encode_utf8, valid_utf8};

verus! {

/// A child of a directory that is listed: its path, and whether it is a
/// directory itself.
pub struct Child {
    pub path: Path,
    pub dir: bool,
}

impl Child {
    /// What the child is ordered by. The root, which is no child, has the
    /// empty name.
    pub open spec fn key(&self) -> ChildKey {
        ChildKey {
            dir: self.dir,
            name: if self.path@.len() > 0 {
                self.path@.last()
            } else {
                Seq::empty()
            },
        }
    }
}

/// The keys of the children.
pub open spec fn keys_of(children: Seq<Child>) -> Seq<ChildKey> {
    Seq::new(children.len(), |i: int| children[i].key())
}

/// `perm` names each index below `n` once.
pub open spec fn is_permutation(perm: Seq<int>, n: nat) -> bool {
    &&& perm.len() == n
    &&& forall|i: int| 0 <= i < n ==> 0 <= #[trigger] perm[i] < n
    &&& forall|i: int, j: int| 0 <= i < j < n ==> #[trigger] perm[i] != #[trigger] perm[j]
}

/// `to` holds the elements of `from` in the order that `perm` gives.
pub open spec fn arranged<A>(from: Seq<A>, to: Seq<A>, perm: Seq<int>) -> bool {
    &&& is_permutation(perm, from.len())
    &&& to.len() == from.len()
    &&& forall|i: int| 0 <= i < to.len() ==> #[trigger] to[i] == from[perm[i]]
}

/// How `a` stands to `b` in the order of children.
pub fn child_ordering(a: &Child, b: &Child) -> (order: Ordering)
    ensures
        match order {
            Ordering::Less => child_order(a.key(), b.key()) is Less,
            Ordering::Equal => child_order(a.key(), b.key()) is Equal,
            Ordering::Greater => child_order(a.key(), b.key()) is Greater,
        },
{
    if a.dir && !b.dir {
        Ordering::Less
    } else if !a.dir && b.dir {
        Ordering::Greater
    } else {
        let order = match (a.path.filename(), b.path.filename()) {
            (Some(x), Some(y)) => compare_bytes(x.bytes(), y.bytes()),
            (Some(x), None) => compare_bytes(x.bytes(), &[]),
            (None, Some(y)) => compare_bytes(&[], y.bytes()),
            (None, None) => Order::Equal,
        };
        match order {
            Order::Less => Ordering::Less,
            Order::Equal => Ordering::Equal,
            Order::Greater => Ordering::Greater,
        }
    }
}

/// `Itertools::sorted_by` of the `itertools` crate, with `child_ordering`
/// to compare, collected: trusted to return the children rearranged into
/// ascending order, as the crate documents for an order that is total.
#[verifier::external_body]
fn sort_children(children: Vec<Child>) -> (sorted: Vec<Child>)
    ensures
        exists|perm: Seq<int>| #[trigger] arranged(children@, sorted@, perm),
        ascending(keys_of(sorted@)),
{
    itertools::Itertools::sorted_by(children.into_iter(), |a, b| child_ordering(a, b)).collect()
}

/// The link to a path: the path from the root, percent-encoded.
pub open spec fn rooted_link(path: Seq<Seq<u8>>) -> Seq<char> {
    seq!['/'] + percent_encoded(join(path))
}

/// The link to the listing of a directory.
pub open spec fn list_link(path: Seq<Seq<u8>>) -> Seq<char> {
    rooted_link(path) + "?list"@
}

/// The path as it is shown: as text, lossily where it is not UTF-8.
pub open spec fn shown(path: Seq<Seq<u8>>) -> Seq<char> {
    lossy(join(path))
}

/// The link to `path`.
pub fn link_to(path: &Path) -> (link: String)
    ensures
        link@ == rooted_link(path@),
{
    let mut builder = PathStringBuilder::new(path.clone());
    builder.root(true);
    let link = builder.build_percent_encode();
    assert(link@ =~= rooted_link(path@));
    link
}

/// The link to the listing of `path`.
pub fn list_link_to(path: &Path) -> (link: String)
    ensures
        link@ == list_link(path@),
{
    let mut link = link_to(path);
    link.append("?list");
    link
}

/// The path as shown for a directory: with a separator behind.
pub fn shown_dir(path: &Path) -> (text: String)
    ensures
        text@ == shown(path@) + seq!['/'],
{
    let mut builder = PathStringBuilder::new(path.clone());
    builder.dir(true);
    let text = builder.build_lossy();
    assert(text@ =~= shown(path@) + seq!['/']);
    text
}

/// What is shown for a request to read a path.
pub enum GetPage {
    /// The file's text in a page, parsed as its file type asks.
    Show { path: String, parent_list_link: String, content: String, safe: bool },
    /// The file's content, sent as it is to be shown in place.
    Inline { content_type: ContentType, body: Vec<u8> },
    /// The file's content, offered for download.
    Download { content_type: ContentType, body: Vec<u8> },
    /// A directory: the request goes on to its index file.
    Redirect { to: Path },
    /// Nothing stands at the path; whether a file could be created there.
    NotFound { path: String, can_exist: bool },
}

/// What `get_page` decides. A file that is text and of no file type that
/// is sent as it is, is shown in a page; one of such a file type is sent
/// to stand in place; every other file is offered for download. A
/// directory leads on to its index file. Where nothing stands, that is
/// said, with whether a file could.
pub open spec fn is_get_page(
    g: Graph,
    path: Seq<Seq<u8>>,
    index: Seq<char>,
    page: GetPage,
) -> bool {
    let filetype = filetype_of(path);
    match g.read(path) {
        Ok(bytes) => if !(filetype is Png) && valid_utf8(bytes) {
            &&& page matches GetPage::Show { path: shown_path, parent_list_link, content, safe }
            &&& path.len() > 0
            &&& shown_path@ == shown(path)
            &&& parent_list_link@ == list_link(path.drop_last())
            &&& content@ == if filetype is Markdown {
                markdown_html(decode_utf8(bytes), true, true, true)
            } else {
                decode_utf8(bytes)
            }
            &&& safe == (filetype is Markdown)
        } else if filetype is Png {
            &&& page matches GetPage::Inline { content_type, body }
            &&& content_type == ContentType::Png
            &&& body@ == bytes
        } else {
            &&& page matches GetPage::Download { content_type, body }
            &&& content_type == if filetype is Markdown {
                ContentType::Markdown
            } else {
                ContentType::Binary
            }
            &&& body@ == bytes
        },
        Err(GitError::IsDir) => {
            &&& page matches GetPage::Redirect { to }
            &&& to@ == path + segments_of(encode_utf8(index))
        },
        Err(_) => {
            &&& page matches GetPage::NotFound { path: shown_path, can_exist }
            &&& shown_path@ == shown(path)
            &&& can_exist == !g.blocked(path)
        },
    }
}

/// Decides what is shown for a request to read `path`, where `index` names
/// the file that a directory shows.
pub fn get_page(repo: &mut GitRepository, path: &Path, index: &str) -> (page: GetPage)
    ensures
        final(repo)@ == old(repo)@.initialized(),
        final(repo)@.wf(),
        is_get_page(final(repo)@, path@, index@, page),
{
    let item = GitItem::new(path.clone());
    let read = item.content(repo);
    proof {
        old(repo)@.lemma_initialized_born();
    }
    match read {
        Ok(content) => {
            let filetype = Filetype::of(path);
            let ghost bytes = content@;
            if filetype.is_raw() {
                if filetype.is_raw_inline() {
                    GetPage::Inline { content_type: filetype.content_type(), body: content }
                } else {
                    GetPage::Download { content_type: filetype.content_type(), body: content }
                }
            } else {
                match text_of(crate::path::copy_bytes(&content)) {
                    Some(text) => {
                        match (path.parent(), filetype.parse(text.as_str())) {
                            (Some(parent), Ok(parsed)) => GetPage::Show {
                                path: path.to_string(),
                                parent_list_link: list_link_to(&parent),
                                content: parsed,
                                safe: filetype.is_safe(),
                            },
                            _ => vstd::pervasive::unreached(),
                        }
                    },
                    None => GetPage::Download {
                        content_type: filetype.content_type(),
                        body: content,
                    },
                }
            }
        },
        Err(GitError::IsDir) => {
            let mut to = path.clone();
            to.push(Path::from_str(index));
            GetPage::Redirect { to }
        },
        Err(_) => {
            match item.can_exist(repo) {
                Ok(can_exist) => GetPage::NotFound { path: path.to_string(), can_exist },
                Err(_) => vstd::pervasive::unreached(),
            }
        },
    }
}

/// What is shown for a request to edit a path.
pub enum EditPage {
    /// No file can stand at the path.
    CannotExist { path: String },
    /// The editor, with the file's text; empty, and said to be no valid
    /// text, where the content is no text.
    Edit { path: String, content: String, is_valid: bool },
}

/// What `edit_page` decides. No file can stand where a file is on the way
/// or a directory at the path. Else the editor is shown: with the text of
/// the file, with nothing for a file that is no text, and with nothing for
/// a file that is not there yet.
pub open spec fn is_edit_page(g: Graph, path: Seq<Seq<u8>>, page: EditPage) -> bool {
    match g.resolve(path) {
        Resolution::Conflict | Resolution::Tree(_) => {
            &&& page matches EditPage::CannotExist { path: shown_path }
            &&& shown_path@ == shown(path)
        },
        Resolution::Blob(b) => {
            &&& page matches EditPage::Edit { path: shown_path, content, is_valid }
            &&& shown_path@ == shown(path)
            &&& is_valid == valid_utf8(g.content(b))
            &&& content@ == if is_valid {
                decode_utf8(g.content(b))
            } else {
                Seq::<char>::empty()
            }
        },
        Resolution::Absent => {
            &&& page matches EditPage::Edit { path: shown_path, content, is_valid }
            &&& shown_path@ == shown(path)
            &&& is_valid
            &&& content@ == Seq::<char>::empty()
        },
    }
}

/// Decides what is shown for a request to edit `path`.
pub fn edit_page(repo: &mut GitRepository, path: &Path) -> (page: EditPage)
    ensures
        final(repo)@ == old(repo)@.initialized(),
        final(repo)@.wf(),
        is_edit_page(final(repo)@, path@, page),
{
    let item = GitItem::new(path.clone());
    let can_exist = item.can_exist(repo);
    proof {
        old(repo)@.lemma_initialized_born();
        repo@.lemma_conflict_is_blocked(path@);
    }
    let to = item.resolve(repo);
    let blocked = match can_exist {
        Ok(can) => !can,
        Err(_) => vstd::pervasive::unreached(),
    };
    let is_dir = match to {
        Resolution::Tree(_) => true,
        _ => false,
    };
    if blocked || is_dir {
        return EditPage::CannotExist { path: path.to_string() };
    }
    match item.content(repo) {
        Ok(content) => {
            match text_of(content) {
                Some(text) => EditPage::Edit {
                    path: path.to_string(),
                    content: text,
                    is_valid: true,
                },
                None => EditPage::Edit {
                    path: path.to_string(),
                    content: String::new(),
                    is_valid: false,
                },
            }
        },
        Err(_) => EditPage::Edit { path: path.to_string(), content: String::new(), is_valid: true },
    }
}

/// What is answered to a request to write a path.
pub enum PostReply {
    /// The file holds the content now; the link to it.
    Saved { path: String },
    /// The file could not be created; why, in words.
    Rejected { reason: String },
    /// The write failed for another reason.
    Failed { error: GitError },
}

/// What `post` answers for what the write came to: done and nothing to do
/// both count as saved, a file on the way is said, and a directory at the
/// path is a failure.
pub open spec fn is_post_reply(
    done: Result<(), GitError>,
    path: Seq<Seq<u8>>,
    reply: PostReply,
) -> bool {
    match done {
        Ok(()) | Err(GitError::NoChange) => {
            &&& reply matches PostReply::Saved { path: link }
            &&& link@ == rooted_link(path)
        },
        Err(GitError::CannotCreate) => {
            &&& reply matches PostReply::Rejected { reason }
            &&& reason@ == "Could not create file at that location."@
        },
        Err(e) => {
            &&& reply matches PostReply::Failed { error }
            &&& error == e
        },
    }
}

/// Writes `content` as the file at `path`, which is not the root, commits
/// with `message`, and decides what is answered.
pub fn post(repo: &mut GitRepository, path: &Path, content: &[u8], message: &str) -> (reply:
    PostReply)
    requires
        path@.len() > 0,
    ensures
        final(repo)@.wf(),
        match old(repo)@.initialized().edit_outcome(path@, content@) {
            Ok(()) => old(repo)@.initialized().committed(final(repo)@, path@, content@, message@),
            Err(_) => final(repo)@ == old(repo)@.initialized().with_blob(content@),
        },
        is_post_reply(old(repo)@.initialized().edit_outcome(path@, content@), path@, reply),
{
    let item = GitItem::new(path.clone());
    match item.edit(repo, content, message) {
        Ok(()) | Err(GitError::NoChange) => PostReply::Saved { path: link_to(path) },
        Err(GitError::CannotCreate) => PostReply::Rejected {
            reason: "Could not create file at that location.".to_owned(),
        },
        Err(error) => PostReply::Failed { error },
    }
}

/// One line of a listing: the link to a child and its name as shown.
pub struct ChildLink {
    pub link: String,
    pub name: String,
}

/// The listing of a directory.
pub struct ListPage {
    pub path: String,
    pub parent_list_link: Option<String>,
    pub children: Vec<ChildLink>,
}

/// What is shown for a request to list a path.
pub enum Listing {
    /// The listing of the directory.
    Page { page: ListPage },
    /// Nothing stands at the path.
    NotFound { path: String },
    /// A file stands at the path: the request goes on to the file.
    Redirect { to: Path },
}

/// What the children of the directory at `path` are ordered by, in the
/// order of its entries.
pub open spec fn child_keys(g: Graph, path: Seq<Seq<u8>>) -> Seq<ChildKey> {
    match g.resolve(path) {
        Resolution::Tree(t) => Seq::new(
            g.entries(t).len(),
            |i: int|
                ChildKey {
                    dir: g.entries(t)[i].kind == ObjectKind::Tree,
                    name: g.entries(t)[i].name,
                },
        ),
        _ => Seq::empty(),
    }
}

/// The line is that of the child `key` of the directory at `path`: for a
/// directory the link to its listing and its name with a separator behind,
/// for a file the link to it and its name.
pub open spec fn is_child_link(path: Seq<Seq<u8>>, key: ChildKey, line: ChildLink) -> bool {
    &&& line.link@ == if key.dir {
        list_link(path.push(key.name))
    } else {
        rooted_link(path.push(key.name))
    }
    &&& line.name@ == lossy(key.name) + slash_if(key.dir)
}

/// The lines are those of the children with the keys `keys`, in the order
/// that `perm` gives, which is ascending.
pub open spec fn lines_in_order(
    path: Seq<Seq<u8>>,
    keys: Seq<ChildKey>,
    lines: Seq<ChildLink>,
    perm: Seq<int>,
) -> bool {
    &&& is_permutation(perm, keys.len())
    &&& lines.len() == keys.len()
    &&& ascending(Seq::new(keys.len(), |i: int| keys[perm[i]]))
    &&& forall|i: int|
        0 <= i < lines.len() ==> is_child_link(path, keys[perm[i]], #[trigger] lines[i])
}

/// What `list_page` decides. A directory is listed: its path as shown for
/// a directory, the link to the listing of its parent unless it is the
/// root, and a line for each child, directories first and each kind by
/// name. Where a file stands, the request goes on to it; where nothing
/// stands, that is said.
pub open spec fn is_listing(g: Graph, path: Seq<Seq<u8>>, listing: Listing) -> bool {
    match g.listing(path) {
        Ok(_) => {
            &&& listing matches Listing::Page { page }
            &&& page.path@ == shown(path) + seq!['/']
            &&& match page.parent_list_link {
                Some(link) => path.len() > 0 && link@ == list_link(path.drop_last()),
                None => path.len() == 0,
            }
            &&& exists|perm: Seq<int>| #[trigger]
                lines_in_order(path, child_keys(g, path), page.children@, perm)
        },
        Err(GitError::IsFile) => {
            &&& listing matches Listing::Redirect { to }
            &&& to@ == path
        },
        Err(_) => {
            &&& listing matches Listing::NotFound { path: shown_path }
            &&& shown_path@ == shown(path) + seq!['/']
        },
    }
}

/// Decides what is shown for a request to list `path`.
pub fn list_page(repo: &mut GitRepository, path: &Path) -> (listing: Listing)
    ensures
        final(repo)@ == old(repo)@.initialized(),
        final(repo)@.wf(),
        is_listing(final(repo)@, path@, listing),
{
    let item = GitItem::new(path.clone());
    let listed = item.list(repo);
    let ghost g = repo@;
    proof {
        old(repo)@.lemma_initialized_born();
        old(repo)@.initialized().lemma_initialized_again();
    }
    match listed {
        Ok(items) => {
            let ghost keys = child_keys(g, path@);
            let ghost tree = g.resolve(path@)->Tree_0;
            let mut children: Vec<Child> = Vec::new();
            let mut i: usize = 0;
            proof {
                let listed = g.listing(path@)->Ok_0;
                assert(paths(items@) == listed);
                assert(items@.len() == listed.len());
                assert forall|k: int| 0 <= k < items@.len() implies (#[trigger] items@[k])@
                    == path@.push(g.entries(tree)[k].name) by {
                    assert(paths(items@)[k] == items@[k]@);
                }
            }
            while i < items.len()
                invariant
                    i <= items.len(),
                    repo@ == g,
                    g.wf(),
                    g.born(),
                    g.resolve(path@) == Resolution::Tree(tree),
                    keys == child_keys(g, path@),
                    keys.len() == items@.len(),
                    forall|k: int|
                        0 <= k < items@.len() ==> (#[trigger] items@[k])@ == path@.push(
                            g.entries(tree)[k].name,
                        ),
                    children@.len() == i,
                    forall|k: int|
                        0 <= k < i ==> (#[trigger] children@[k]).key() == keys[k]
                            && children@[k].path@ == path@.push(keys[k].name),
                decreases items.len() - i,
            {
                proof {
                    law_children_stand(g, path@, tree, i as int);
                    g.lemma_initialized_again();
                }
                let dir = match items[i].is_dir(repo) {
                    Ok(dir) => dir,
                    Err(_) => vstd::pervasive::unreached(),
                };
                children.push(Child { path: items[i].path().clone(), dir });
                i += 1;
            }
            assert(keys_of(children@) =~= keys);
            let ghost unsorted = children@;
            let sorted = sort_children(children);
            let ghost perm = choose|perm: Seq<int>| #[trigger] arranged(unsorted, sorted@, perm);
            assert(keys_of(sorted@) =~= Seq::new(keys.len(), |i: int| keys[perm[i]])) by {
                assert forall|k: int| 0 <= k < sorted@.len() implies keys_of(sorted@)[k]
                    == keys[perm[k]] by {
                    assert(sorted@[k] == unsorted[perm[k]]);
                }
            }
            let mut lines: Vec<ChildLink> = Vec::new();
            let mut j: usize = 0;
            while j < sorted.len()
                invariant
                    j <= sorted.len(),
                    arranged(unsorted, sorted@, perm),
                    keys.len() == unsorted.len(),
                    forall|k: int|
                        0 <= k < unsorted.len() ==> (#[trigger] unsorted[k]).key() == keys[k]
                            && unsorted[k].path@ == path@.push(keys[k].name),
                    lines@.len() == j,
                    forall|k: int|
                        0 <= k < j ==> is_child_link(path@, keys[perm[k]], #[trigger] lines@[k]),
                decreases sorted.len() - j,
            {
                let child = &sorted[j];
                let ghost key = keys[perm[j as int]];
                proof {
                    assert(sorted@[j as int] == unsorted[perm[j as int]]);
                    assert(child.path@ == path@.push(key.name));
                    assert(child.path@.last() == key.name);
                }
                let link = if child.dir {
                    list_link_to(&child.path)
                } else {
                    link_to(&child.path)
                };
                let name = match child.path.filename() {
                    Some(name) => {
                        let mut builder = PathStringBuilder::new(name);
                        builder.dir(child.dir);
                        let text = builder.build_lossy();
                        assert(join(seq![key.name]) == key.name);
                        assert(text@ =~= lossy(key.name) + slash_if(key.dir));
                        text
                    },
                    None => vstd::pervasive::unreached(),
                };
                lines.push(ChildLink { link, name });
                j += 1;
            }
            let parent_list_link = match path.parent() {
                Some(parent) => Some(list_link_to(&parent)),
                None => None,
            };
            let page = ListPage { path: shown_dir(path), parent_list_link, children: lines };
            assert(lines_in_order(path@, keys, page.children@, perm));
            Listing::Page { page }
        },
        Err(GitError::IsFile) => Listing::Redirect { to: path.clone() },
        Err(_) => Listing::NotFound { path: shown_dir(path) },
    }
}

} // verus!
