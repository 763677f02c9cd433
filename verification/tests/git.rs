use smeagol::git::{GitError, Object, TreeBuilder, DIRECTORY_MODE, FILE_MODE};
use smeagol::graph::{ObjectKind, Resolution};
use smeagol::{GitItem, GitRepository, Path};

fn item(repo: &GitRepository, path: &str) -> GitItem {
    repo.item(Path::from(path.to_string())).unwrap()
}

fn names(items: &[GitItem]) -> Vec<String> {
    items.iter().map(|i| i.path().to_string()).collect()
}

#[test]
fn root_always_exists() {
    let mut repo = GitRepository::new();

    let path = Path::new();
    let item = repo.item(path).unwrap();

    assert!(item.is_present(&mut repo).unwrap());
    assert!(item.is_dir(&mut repo).unwrap());
    assert!(!item.is_file(&mut repo).unwrap());
}

#[test]
fn edit_file() {
    let mut repo = GitRepository::new();

    let path = Path::from("index.md".to_string());
    let item = repo.item(path).unwrap();

    assert!(!item.is_present(&mut repo).unwrap());
    assert!(item.can_exist(&mut repo).unwrap());
    match item.content(&mut repo) {
        Err(GitError::NotFound) => {}
        _ => panic!(),
    }

    let file_content = "This is a file.".bytes().collect::<Vec<u8>>();
    item.edit(&mut repo, &file_content, "Commit message").unwrap();

    assert!(item.is_file(&mut repo).unwrap());
    assert!(!item.is_dir(&mut repo).unwrap());
    assert_eq!(item.content(&mut repo).unwrap(), file_content);

    let file_content = "This is an edited file.".bytes().collect::<Vec<u8>>();
    item.edit(&mut repo, &file_content, "Commit message 2").unwrap();

    assert_eq!(item.content(&mut repo).unwrap(), file_content);
}

#[test]
fn edit_file_dir() {
    let mut repo = GitRepository::new();

    let path = Path::from("test/index.md".to_string());
    let item = repo.item(path).unwrap();
    let dir_item = item.parent().unwrap();

    assert!(!dir_item.is_present(&mut repo).unwrap());
    assert!(!item.is_present(&mut repo).unwrap());
    assert!(dir_item.can_exist(&mut repo).unwrap());
    assert!(item.can_exist(&mut repo).unwrap());
    match item.content(&mut repo) {
        Err(GitError::NotFound) => {}
        _ => panic!(),
    }

    let file_content = "This is a file.".bytes().collect::<Vec<u8>>();
    item.edit(&mut repo, &file_content, "Commit message").unwrap();

    assert!(dir_item.is_dir(&mut repo).unwrap());
    assert!(!dir_item.is_file(&mut repo).unwrap());
    assert!(item.is_file(&mut repo).unwrap());
    assert!(!item.is_dir(&mut repo).unwrap());
    assert_eq!(item.content(&mut repo).unwrap(), file_content);
}

#[test]
fn can_exist1() {
    let mut repo = GitRepository::new();

    let path = Path::from("index.md".to_string());
    let item = repo.item(path).unwrap();

    item.edit(&mut repo, &vec![], "commit").unwrap();

    let path2 = Path::from("index.md/something.md".to_string());
    let item2 = repo.item(path2).unwrap();
    assert!(!item2.can_exist(&mut repo).unwrap());

    match item2.content(&mut repo) {
        Err(GitError::NotFound) => {}
        _ => panic!(),
    }
    match item2.edit(&mut repo, &vec![], "commit") {
        Err(GitError::CannotCreate) => {}
        _ => panic!(),
    }
}

#[test]
fn can_exist2() {
    let mut repo = GitRepository::new();

    let path = Path::from("test/index.md".to_string());
    let item = repo.item(path).unwrap();

    item.edit(&mut repo, &vec![], "commit").unwrap();

    let path2 = Path::from("test/index.md/something.md".to_string());
    let item2 = repo.item(path2).unwrap();
    assert!(!item2.can_exist(&mut repo).unwrap());

    match item2.content(&mut repo) {
        Err(GitError::NotFound) => {}
        _ => panic!(),
    }
    match item2.edit(&mut repo, &vec![], "commit") {
        Err(GitError::CannotCreate) => {}
        _ => panic!(),
    }
}

#[test]
fn a_new_repository_has_no_history_until_the_head_is_asked_for() {
    let mut repo = GitRepository::new();
    assert_eq!(repo.history_len(), 0);
    assert_eq!(repo.object_count(), 0);

    let root = repo.head();
    assert_eq!(root, 0);
    assert_eq!(repo.history_len(), 1);
    assert_eq!(repo.object_count(), 1);
    assert_eq!(repo.snapshot(0).unwrap().message, "Root commit");
    assert_eq!(repo.snapshot(0).unwrap().tree, 0);
    assert!(repo.snapshot(1).is_none());

    assert_eq!(repo.head(), 0);
    assert_eq!(repo.history_len(), 1);
    assert_eq!(repo.object_count(), 1);
}

#[test]
fn reading_gives_a_repository_its_first_snapshot() {
    let mut repo = GitRepository::new();
    let root = item(&repo, "");
    assert_eq!(root.list(&mut repo).unwrap().len(), 0);
    assert_eq!(repo.history_len(), 1);
    assert_eq!(root.resolve(&mut repo), Resolution::Tree(0));
    assert_eq!(repo.history_len(), 1);
}

#[test]
fn write_then_read_returns_the_content() {
    let mut repo = GitRepository::new();
    for (path, content) in [
        ("a", &b"one"[..]),
        ("b/c", &b"two"[..]),
        ("b/d/e/f.txt", &b""[..]),
        ("b/c", &b"three"[..]),
        ("x y/%z", &[0u8, 255, 47, 10][..]),
    ] {
        let it = item(&repo, path);
        assert_eq!(it.edit(&mut repo, content, "write"), Ok(()));
        assert_eq!(it.content(&mut repo).unwrap(), content);
    }
    assert_eq!(item(&repo, "a").content(&mut repo).unwrap(), b"one");
    assert_eq!(item(&repo, "b/c").content(&mut repo).unwrap(), b"three");
    assert_eq!(item(&repo, "b/d/e/f.txt").content(&mut repo).unwrap(), b"");
}

#[test]
fn writing_twice_commits_once() {
    let mut repo = GitRepository::new();
    repo.head();
    let before = repo.history_len();
    let it = item(&repo, "notes/today.md");

    assert_eq!(it.edit(&mut repo, b"same", "first"), Ok(()));
    assert_eq!(repo.history_len(), before + 1);
    let objects = repo.object_count();

    assert_eq!(it.edit(&mut repo, b"same", "second"), Err(GitError::NoChange));
    assert_eq!(repo.history_len(), before + 1);
    assert_eq!(repo.object_count(), objects);
    assert_eq!(repo.snapshot(before).unwrap().message, "first");
}

#[test]
fn the_first_write_to_a_new_repository_adds_the_root_snapshot_too() {
    let mut repo = GitRepository::new();
    let it = item(&repo, "a");
    assert_eq!(it.edit(&mut repo, b"x", "m"), Ok(()));
    assert_eq!(repo.history_len(), 2);
    assert_eq!(repo.snapshot(0).unwrap().message, "Root commit");
    assert_eq!(repo.snapshot(1).unwrap().message, "m");
}

#[test]
fn writing_below_a_file_is_rejected_and_changes_nothing() {
    let mut repo = GitRepository::new();
    let a = item(&repo, "a");
    a.edit(&mut repo, b"content of a", "a").unwrap();
    let history = repo.history_len();

    let below = item(&repo, "a/b");
    assert_eq!(below.edit(&mut repo, b"new", "b"), Err(GitError::CannotCreate));
    assert_eq!(a.content(&mut repo).unwrap(), b"content of a");
    assert!(a.is_file(&mut repo).unwrap());
    assert_eq!(repo.history_len(), history);

    let deeper = item(&repo, "a/b/c/d");
    assert_eq!(deeper.edit(&mut repo, b"new", "d"), Err(GitError::CannotCreate));
    assert_eq!(deeper.can_exist(&mut repo), Ok(false));
    assert_eq!(below.can_exist(&mut repo), Ok(false));
    assert_eq!(a.can_exist(&mut repo), Ok(true));
    assert_eq!(a.content(&mut repo).unwrap(), b"content of a");
}

#[test]
fn writing_over_a_directory_is_rejected() {
    let mut repo = GitRepository::new();
    item(&repo, "dir/file").edit(&mut repo, b"x", "m").unwrap();
    let history = repo.history_len();
    let dir = item(&repo, "dir");
    assert_eq!(dir.edit(&mut repo, b"y", "m"), Err(GitError::IsDir));
    assert_eq!(repo.history_len(), history);
    assert!(dir.is_dir(&mut repo).unwrap());
    assert_eq!(item(&repo, "dir/file").content(&mut repo).unwrap(), b"x");
}

#[test]
fn listing_a_fresh_write() {
    let mut repo = GitRepository::new();
    item(&repo, "dir/file.md").edit(&mut repo, b"text", "m").unwrap();

    let root = item(&repo, "");
    let children = root.list(&mut repo).unwrap();
    assert_eq!(names(&children), vec!["dir"]);
    assert!(children[0].is_dir(&mut repo).unwrap());
    assert!(!children[0].is_file(&mut repo).unwrap());

    let dir = item(&repo, "dir");
    let children = dir.list(&mut repo).unwrap();
    assert_eq!(names(&children), vec!["dir/file.md"]);
    assert_eq!(children[0].path().filename().unwrap().bytes(), b"file.md");
    assert!(children[0].is_file(&mut repo).unwrap());
    assert!(!children[0].is_dir(&mut repo).unwrap());
}

#[test]
fn listing_keeps_the_order_of_the_entries() {
    let mut repo = GitRepository::new();
    for name in ["z", "a", "m/x", "b", "m/y"] {
        item(&repo, name).edit(&mut repo, name.as_bytes(), "m").unwrap();
    }
    item(&repo, "a").edit(&mut repo, b"again", "m").unwrap();
    let root = item(&repo, "");
    assert_eq!(names(&root.list(&mut repo).unwrap()), vec!["z", "a", "m", "b"]);
    assert_eq!(names(&item(&repo, "m").list(&mut repo).unwrap()), vec!["m/x", "m/y"]);
}

#[test]
fn listing_a_file_or_nothing_fails() {
    let mut repo = GitRepository::new();
    item(&repo, "f").edit(&mut repo, b"", "m").unwrap();
    assert_eq!(item(&repo, "f").list(&mut repo).err(), Some(GitError::IsFile));
    assert_eq!(item(&repo, "g").list(&mut repo).err(), Some(GitError::NotFound));
    assert_eq!(item(&repo, "f/g").list(&mut repo).err(), Some(GitError::NotFound));
}

#[test]
fn reading_a_directory_or_nothing_fails() {
    let mut repo = GitRepository::new();
    item(&repo, "d/f").edit(&mut repo, b"", "m").unwrap();
    assert_eq!(item(&repo, "d").content(&mut repo), Err(GitError::IsDir));
    assert_eq!(item(&repo, "").content(&mut repo), Err(GitError::IsDir));
    assert_eq!(item(&repo, "e").content(&mut repo), Err(GitError::NotFound));
    assert_eq!(item(&repo, "d/f/g").content(&mut repo), Err(GitError::NotFound));
    assert_eq!(item(&repo, "e").is_dir(&mut repo), Err(GitError::NotFound));
    assert_eq!(item(&repo, "e").is_file(&mut repo), Err(GitError::NotFound));
    assert_eq!(item(&repo, "d/f/g").is_file(&mut repo), Err(GitError::NotFound));
    assert_eq!(item(&repo, "e").is_present(&mut repo), Ok(false));
    assert_eq!(item(&repo, "d/f/g").is_present(&mut repo), Ok(false));
}

#[test]
fn resolve_tells_absence_from_conflict() {
    let mut repo = GitRepository::new();
    item(&repo, "d/f").edit(&mut repo, b"", "m").unwrap();
    assert_eq!(item(&repo, "d/x").resolve(&mut repo), Resolution::Absent);
    assert_eq!(item(&repo, "x/y/z").resolve(&mut repo), Resolution::Absent);
    assert_eq!(item(&repo, "d/f/g").resolve(&mut repo), Resolution::Conflict);
    assert_eq!(item(&repo, "d/f/g/h").resolve(&mut repo), Resolution::Conflict);
    assert!(matches!(item(&repo, "d/f").resolve(&mut repo), Resolution::Blob(_)));
    assert!(matches!(item(&repo, "d").resolve(&mut repo), Resolution::Tree(_)));
}

#[test]
fn the_root_has_no_parent() {
    let repo = GitRepository::new();
    assert_eq!(item(&repo, "").parent().err(), Some(GitError::NoParent));
    assert_eq!(item(&repo, "a").parent().unwrap().path(), &Path::new());
    assert_eq!(item(&repo, "a/b").parent().unwrap().path().bytes(), b"a");
}

#[test]
fn can_exist_is_true_for_the_root_and_for_single_segments() {
    let mut repo = GitRepository::new();
    assert_eq!(item(&repo, "").can_exist(&mut repo), Ok(true));
    assert_eq!(item(&repo, "a").can_exist(&mut repo), Ok(true));
    assert_eq!(item(&repo, "a/b/c").can_exist(&mut repo), Ok(true));
    item(&repo, "a/b").edit(&mut repo, b"", "m").unwrap();
    assert_eq!(item(&repo, "a/b").can_exist(&mut repo), Ok(true));
    assert_eq!(item(&repo, "a/c/d").can_exist(&mut repo), Ok(true));
    assert_eq!(item(&repo, "a/b/c").can_exist(&mut repo), Ok(false));
}

#[test]
fn scenario_index() {
    let mut repo = GitRepository::new();
    let index = item(&repo, "index.md");
    assert_eq!(index.edit(&mut repo, b"hello", "init"), Ok(()));
    assert_eq!(index.content(&mut repo).unwrap(), b"hello");
    assert_eq!(index.edit(&mut repo, b"hello", "again"), Err(GitError::NoChange));
    assert_eq!(index.edit(&mut repo, b"bye", "change"), Ok(()));
    assert_eq!(index.content(&mut repo).unwrap(), b"bye");
}

#[test]
fn scenario_file_in_the_way() {
    let mut repo = GitRepository::new();
    assert_eq!(item(&repo, "a/b/c.md").edit(&mut repo, b"", "m"), Ok(()));
    let below = item(&repo, "a/b/c.md/d.md");
    assert_eq!(below.can_exist(&mut repo), Ok(false));
    assert_eq!(below.edit(&mut repo, b"", "m"), Err(GitError::CannotCreate));
}

#[test]
fn a_write_leaves_other_paths_alone_and_reuses_their_trees() {
    let mut repo = GitRepository::new();
    item(&repo, "keep/one").edit(&mut repo, b"1", "m").unwrap();
    item(&repo, "keep/two").edit(&mut repo, b"2", "m").unwrap();
    item(&repo, "top").edit(&mut repo, b"t", "m").unwrap();
    let keep = item(&repo, "keep").resolve(&mut repo);
    let one = item(&repo, "keep/one").resolve(&mut repo);
    let objects = repo.object_count();

    item(&repo, "other/deep/file").edit(&mut repo, b"new", "m").unwrap();

    assert_eq!(item(&repo, "keep").resolve(&mut repo), keep);
    assert_eq!(item(&repo, "keep/one").resolve(&mut repo), one);
    assert_eq!(item(&repo, "keep/two").content(&mut repo).unwrap(), b"2");
    assert_eq!(item(&repo, "top").content(&mut repo).unwrap(), b"t");
    assert_eq!(repo.object_count(), objects + 1 + 3);
}

#[test]
fn equal_content_is_one_blob() {
    let mut repo = GitRepository::new();
    let a = repo.write_blob(b"same");
    let b = repo.write_blob(b"other");
    let c = repo.write_blob(b"same");
    assert_eq!(a, c);
    assert_ne!(a, b);
    assert_eq!(repo.object_count(), 2);

    item(&repo, "x").edit(&mut repo, b"same", "m").unwrap();
    item(&repo, "y").edit(&mut repo, b"same", "m").unwrap();
    assert_eq!(item(&repo, "x").resolve(&mut repo), Resolution::Blob(a));
    assert_eq!(item(&repo, "y").resolve(&mut repo), Resolution::Blob(a));
}

#[test]
fn a_rejected_write_still_stores_the_blob() {
    let mut repo = GitRepository::new();
    item(&repo, "d/f").edit(&mut repo, b"", "m").unwrap();
    let objects = repo.object_count();
    assert_eq!(item(&repo, "d").edit(&mut repo, b"orphan", "m"), Err(GitError::IsDir));
    assert_eq!(repo.object_count(), objects + 1);
    assert_eq!(repo.write_blob(b"orphan"), objects);
    assert_eq!(repo.object_count(), objects + 1);
}

#[test]
fn tree_builder_puts_and_gets() {
    let mut repo = GitRepository::new();
    let blob = repo.write_blob(b"b");
    let mut builder = TreeBuilder::new();
    assert!(builder.get(b"a").is_none());
    assert!(builder.insert(b"a".to_vec(), blob, ObjectKind::Blob, FILE_MODE));
    assert!(builder.insert(b"b".to_vec(), blob, ObjectKind::Blob, FILE_MODE));
    let other = repo.write_blob(b"c");
    assert!(builder.insert(b"a".to_vec(), other, ObjectKind::Blob, 0o100755));
    let a = builder.get(b"a").unwrap();
    assert_eq!((a.id, a.kind, a.mode), (other, ObjectKind::Blob, 0o100755));
    assert_eq!(builder.get(b"b").unwrap().id, blob);
    assert!(builder.get(b"c").is_none());

    let tree = repo.write_tree(&builder).unwrap();
    let seeded = repo.tree_builder(Some(tree));
    assert_eq!(seeded.get(b"a").unwrap().id, other);
    assert_eq!(seeded.get(b"b").unwrap().id, blob);
    assert!(repo.tree_builder(None).get(b"a").is_none());
    assert!(repo.tree_builder(Some(blob)).get(b"a").is_none());
    assert!(repo.tree_builder(Some(99)).get(b"a").is_none());

    assert_eq!(repo.child(Resolution::Tree(tree), b"a"), Resolution::Blob(other));
    assert_eq!(repo.child(Resolution::Tree(tree), b"zz"), Resolution::Absent);
    assert_eq!(repo.child(Resolution::Blob(blob), b"a"), Resolution::Conflict);
    assert_eq!(repo.child(Resolution::Absent, b"a"), Resolution::Absent);
    assert_eq!(repo.child(Resolution::Conflict, b"a"), Resolution::Conflict);
}

#[test]
fn a_name_that_is_no_segment_is_refused() {
    let mut repo = GitRepository::new();
    let blob = repo.write_blob(b"b");
    let mut builder = TreeBuilder::new();
    assert!(!builder.insert(Vec::new(), blob, ObjectKind::Blob, FILE_MODE));
    assert!(!builder.insert(b"a/b".to_vec(), blob, ObjectKind::Blob, FILE_MODE));
    assert!(!builder.insert(b"/".to_vec(), blob, ObjectKind::Blob, FILE_MODE));
    assert!(builder.get(b"a/b").is_none());
    assert!(builder.insert(b"a.b".to_vec(), blob, ObjectKind::Blob, FILE_MODE));
    let tree = repo.write_tree(&builder).unwrap();
    match repo.object(tree) {
        Some(Object::Tree(entries)) => {
            assert_eq!(entries.len(), 1);
            assert_eq!(entries[0].name, b"a.b");
            assert_eq!(entries[0].mode, FILE_MODE);
        }
        _ => panic!(),
    }
    match repo.object(blob) {
        Some(Object::Blob(content)) => assert_eq!(content, b"b"),
        _ => panic!(),
    }
    assert!(repo.object(tree + 1).is_none());
}

#[test]
fn a_tree_with_a_dangling_entry_is_not_written() {
    let mut repo = GitRepository::new();
    let blob = repo.write_blob(b"b");
    let mut builder = TreeBuilder::new();
    builder.insert(b"a".to_vec(), blob + 1, ObjectKind::Blob, FILE_MODE);
    assert_eq!(repo.write_tree(&builder), None);

    let mut builder = TreeBuilder::new();
    builder.insert(b"a".to_vec(), blob, ObjectKind::Tree, DIRECTORY_MODE);
    assert_eq!(repo.write_tree(&builder), None);
    assert_eq!(repo.object_count(), 1);

    let mut builder = TreeBuilder::new();
    builder.insert(b"a".to_vec(), blob, ObjectKind::Blob, FILE_MODE);
    assert_eq!(repo.write_tree(&builder), Some(1));
}

#[test]
fn a_snapshot_needs_a_tree() {
    let mut repo = GitRepository::new();
    let blob = repo.write_blob(b"b");
    assert_eq!(repo.commit(blob, "no"), None);
    assert_eq!(repo.commit(7, "no"), None);
    assert_eq!(repo.history_len(), 0);
    let tree = repo.write_tree(&TreeBuilder::new()).unwrap();
    assert_eq!(repo.commit(tree, "yes"), Some(0));
    assert_eq!(repo.head(), tree);
    assert_eq!(repo.history_len(), 1);
    assert_eq!(repo.snapshot(0).unwrap().message, "yes");
}

#[test]
fn errors_in_words() {
    assert_eq!(GitError::NotFound.to_string(), "Not found");
    assert_eq!(GitError::NoParent.to_string(), "No parent");
    assert_eq!(GitError::IsDir.to_string(), "Is directory");
    assert_eq!(GitError::IsFile.to_string(), "Is file");
    assert_eq!(GitError::CannotCreate.to_string(), "Cannot create file at that location");
    assert_eq!(GitError::NoChange.to_string(), "The file has not changed.");
}
