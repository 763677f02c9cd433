use smeagol::order::{compare_bytes, Order};
use smeagol::pages::{
    child_ordering, edit_page, get_page, link_to, list_link_to, list_page, post, shown_dir, Child,
    EditPage, GetPage, Listing, PostReply,
};
use smeagol::{ContentType, GitError, GitRepository, Path};
use std::cmp::Ordering;

fn path(text: &str) -> Path {
    Path::from(text.to_string())
}

fn write(repo: &mut GitRepository, at: &str, content: &[u8]) {
    repo.item(path(at)).unwrap().edit(repo, content, "m").unwrap();
}

#[test]
fn bytes_are_compared_by_their_first_difference() {
    assert_eq!(compare_bytes(b"", b""), Order::Equal);
    assert_eq!(compare_bytes(b"", b"a"), Order::Less);
    assert_eq!(compare_bytes(b"a", b""), Order::Greater);
    assert_eq!(compare_bytes(b"abc", b"abd"), Order::Less);
    assert_eq!(compare_bytes(b"abd", b"abc"), Order::Greater);
    assert_eq!(compare_bytes(b"ab", b"abc"), Order::Less);
    assert_eq!(compare_bytes(b"abc", b"ab"), Order::Greater);
    assert_eq!(compare_bytes(b"abc", b"abc"), Order::Equal);
    assert_eq!(compare_bytes(b"B", b"a"), Order::Less);
    assert_eq!(compare_bytes(&[0x7f], &[0x80]), Order::Less);
    assert_eq!(compare_bytes(&[0xff], &[0x00, 0xff]), Order::Greater);
}

#[test]
fn directories_come_first() {
    let dir_z = Child { path: path("x/z"), dir: true };
    let dir_a = Child { path: path("y/a"), dir: true };
    let file_a = Child { path: path("a"), dir: false };
    let file_b = Child { path: path("q/b"), dir: false };
    assert_eq!(child_ordering(&dir_z, &file_a), Ordering::Less);
    assert_eq!(child_ordering(&file_a, &dir_z), Ordering::Greater);
    assert_eq!(child_ordering(&dir_a, &dir_z), Ordering::Less);
    assert_eq!(child_ordering(&dir_z, &dir_a), Ordering::Greater);
    assert_eq!(child_ordering(&file_a, &file_b), Ordering::Less);
    assert_eq!(child_ordering(&file_b, &file_a), Ordering::Greater);
    assert_eq!(child_ordering(&file_a, &file_a), Ordering::Equal);
    let root = Child { path: Path::new(), dir: false };
    assert_eq!(child_ordering(&root, &file_a), Ordering::Less);
    assert_eq!(child_ordering(&root, &root), Ordering::Equal);
}

#[test]
fn links() {
    assert_eq!(link_to(&path("a b/c")), "/a%20b/c");
    assert_eq!(link_to(&Path::new()), "/");
    assert_eq!(list_link_to(&path("a b/c")), "/a%20b/c?list");
    assert_eq!(list_link_to(&Path::new()), "/?list");
    assert_eq!(shown_dir(&path("a b")), "a b/");
    assert_eq!(shown_dir(&Path::new()), "/");
}

#[test]
fn a_listing_is_sorted_directories_first() {
    let mut repo = GitRepository::new();
    for at in ["zeta.md", "beta/one", "Alpha", "alpha/two", "a b", "gamma.png"] {
        write(&mut repo, at, b"x");
    }
    match list_page(&mut repo, &Path::new()) {
        Listing::Page { page } => {
            assert_eq!(page.path, "/");
            assert_eq!(page.parent_list_link, None);
            let names: Vec<&str> = page.children.iter().map(|c| c.name.as_str()).collect();
            assert_eq!(names, vec!["alpha/", "beta/", "Alpha", "a b", "gamma.png", "zeta.md"]);
            let links: Vec<&str> = page.children.iter().map(|c| c.link.as_str()).collect();
            assert_eq!(
                links,
                vec!["/alpha?list", "/beta?list", "/Alpha", "/a%20b", "/gamma.png", "/zeta.md"]
            );
        }
        _ => panic!(),
    }
}

#[test]
fn a_listing_below_the_root_links_to_its_parent() {
    let mut repo = GitRepository::new();
    write(&mut repo, "docs/sub dir/b.md", b"x");
    write(&mut repo, "docs/sub dir/a.md", b"x");
    write(&mut repo, "docs/sub dir/deep/c.md", b"x");
    match list_page(&mut repo, &path("docs/sub dir")) {
        Listing::Page { page } => {
            assert_eq!(page.path, "docs/sub dir/");
            assert_eq!(page.parent_list_link.as_deref(), Some("/docs?list"));
            let lines: Vec<(&str, &str)> =
                page.children.iter().map(|c| (c.name.as_str(), c.link.as_str())).collect();
            assert_eq!(
                lines,
                vec![
                    ("deep/", "/docs/sub%20dir/deep?list"),
                    ("a.md", "/docs/sub%20dir/a.md"),
                    ("b.md", "/docs/sub%20dir/b.md"),
                ]
            );
        }
        _ => panic!(),
    }
    match list_page(&mut repo, &path("docs")) {
        Listing::Page { page } => {
            assert_eq!(page.parent_list_link.as_deref(), Some("/?list"));
            assert_eq!(page.children.len(), 1);
        }
        _ => panic!(),
    }
}

#[test]
fn listing_an_empty_repository() {
    let mut repo = GitRepository::new();
    match list_page(&mut repo, &Path::new()) {
        Listing::Page { page } => {
            assert_eq!(page.path, "/");
            assert!(page.children.is_empty());
        }
        _ => panic!(),
    }
    assert_eq!(repo.history_len(), 1);
}

#[test]
fn listing_a_file_or_nothing() {
    let mut repo = GitRepository::new();
    write(&mut repo, "d/f", b"x");
    match list_page(&mut repo, &path("d/f")) {
        Listing::Redirect { to } => assert_eq!(to, path("d/f")),
        _ => panic!(),
    }
    match list_page(&mut repo, &path("d/g")) {
        Listing::NotFound { path } => assert_eq!(path, "d/g/"),
        _ => panic!(),
    }
    match list_page(&mut repo, &path("d/f/g")) {
        Listing::NotFound { path } => assert_eq!(path, "d/f/g/"),
        _ => panic!(),
    }
}

#[test]
fn a_text_file_is_shown() {
    let mut repo = GitRepository::new();
    write(&mut repo, "notes/plain.txt", b"just <text>");
    match get_page(&mut repo, &path("notes/plain.txt"), "index.md") {
        GetPage::Show { path, parent_list_link, content, safe } => {
            assert_eq!(path, "notes/plain.txt");
            assert_eq!(parent_list_link, "/notes?list");
            assert_eq!(content, "just <text>");
            assert!(!safe);
        }
        _ => panic!(),
    }
}

#[test]
fn markdown_is_shown_rendered() {
    let mut repo = GitRepository::new();
    write(&mut repo, "index.md", b"# Welcome");
    match get_page(&mut repo, &path("index.md"), "index.md") {
        GetPage::Show { path, parent_list_link, content, safe } => {
            assert_eq!(path, "index.md");
            assert_eq!(parent_list_link, "/?list");
            assert_eq!(content, "<h1>Welcome</h1>\n");
            assert!(safe);
        }
        _ => panic!(),
    }
}

#[test]
fn an_image_stands_in_place() {
    let mut repo = GitRepository::new();
    write(&mut repo, "logo.png", b"not really an image");
    match get_page(&mut repo, &path("logo.png"), "index.md") {
        GetPage::Inline { content_type, body } => {
            assert_eq!(content_type, ContentType::Png);
            assert_eq!(body, b"not really an image");
        }
        _ => panic!(),
    }
}

#[test]
fn what_is_no_text_is_offered_for_download() {
    let mut repo = GitRepository::new();
    write(&mut repo, "data.bin", &[0xff, 0xfe, 0x00]);
    write(&mut repo, "broken.md", &[b'#', 0xc3]);
    match get_page(&mut repo, &path("data.bin"), "index.md") {
        GetPage::Download { content_type, body } => {
            assert_eq!(content_type, ContentType::Binary);
            assert_eq!(body, vec![0xff, 0xfe, 0x00]);
        }
        _ => panic!(),
    }
    match get_page(&mut repo, &path("broken.md"), "index.md") {
        GetPage::Download { content_type, body } => {
            assert_eq!(content_type, ContentType::Markdown);
            assert_eq!(body, vec![b'#', 0xc3]);
        }
        _ => panic!(),
    }
}

#[test]
fn a_directory_leads_on_to_its_index() {
    let mut repo = GitRepository::new();
    write(&mut repo, "docs/index.md", b"x");
    match get_page(&mut repo, &path("docs"), "index.md") {
        GetPage::Redirect { to } => assert_eq!(to, path("docs/index.md")),
        _ => panic!(),
    }
    match get_page(&mut repo, &Path::new(), "/start/page.md") {
        GetPage::Redirect { to } => assert_eq!(to, path("start/page.md")),
        _ => panic!(),
    }
}

#[test]
fn what_is_not_there_is_said_with_whether_it_could_be() {
    let mut repo = GitRepository::new();
    write(&mut repo, "docs/index.md", b"x");
    match get_page(&mut repo, &path("docs/other.md"), "index.md") {
        GetPage::NotFound { path, can_exist } => {
            assert_eq!(path, "docs/other.md");
            assert!(can_exist);
        }
        _ => panic!(),
    }
    match get_page(&mut repo, &path("docs/index.md/below"), "index.md") {
        GetPage::NotFound { path, can_exist } => {
            assert_eq!(path, "docs/index.md/below");
            assert!(!can_exist);
        }
        _ => panic!(),
    }
}

#[test]
fn the_editor_shows_the_text() {
    let mut repo = GitRepository::new();
    write(&mut repo, "a/text.md", "Grüße".as_bytes());
    write(&mut repo, "a/data", &[0x80]);
    match edit_page(&mut repo, &path("a/text.md")) {
        EditPage::Edit { path, content, is_valid } => {
            assert_eq!(path, "a/text.md");
            assert_eq!(content, "Grüße");
            assert!(is_valid);
        }
        _ => panic!(),
    }
    match edit_page(&mut repo, &path("a/data")) {
        EditPage::Edit { path, content, is_valid } => {
            assert_eq!(path, "a/data");
            assert_eq!(content, "");
            assert!(!is_valid);
        }
        _ => panic!(),
    }
    match edit_page(&mut repo, &path("a/new.md")) {
        EditPage::Edit { path, content, is_valid } => {
            assert_eq!(path, "a/new.md");
            assert_eq!(content, "");
            assert!(is_valid);
        }
        _ => panic!(),
    }
    match edit_page(&mut repo, &path("b/c/new.md")) {
        EditPage::Edit { content, is_valid, .. } => {
            assert_eq!(content, "");
            assert!(is_valid);
        }
        _ => panic!(),
    }
}

#[test]
fn the_editor_is_refused_where_no_file_can_stand() {
    let mut repo = GitRepository::new();
    write(&mut repo, "a/text.md", b"x");
    for at in ["a", "", "a/text.md/below", "a/text.md/far/below"] {
        match edit_page(&mut repo, &path(at)) {
            EditPage::CannotExist { path } => assert_eq!(path, at),
            _ => panic!(),
        }
    }
}

#[test]
fn post_saves_and_answers() {
    let mut repo = GitRepository::new();
    match post(&mut repo, &path("a b/c.md"), b"text", "first") {
        PostReply::Saved { path } => assert_eq!(path, "/a%20b/c.md"),
        _ => panic!(),
    }
    assert_eq!(repo.history_len(), 2);
    match post(&mut repo, &path("a b/c.md"), b"text", "again") {
        PostReply::Saved { path } => assert_eq!(path, "/a%20b/c.md"),
        _ => panic!(),
    }
    assert_eq!(repo.history_len(), 2);
    match post(&mut repo, &path("a b/c.md/d"), b"text", "below") {
        PostReply::Rejected { reason } => {
            assert_eq!(reason, "Could not create file at that location.")
        }
        _ => panic!(),
    }
    match post(&mut repo, &path("a b"), b"text", "over") {
        PostReply::Failed { error } => assert_eq!(error, GitError::IsDir),
        _ => panic!(),
    }
    assert_eq!(repo.history_len(), 2);
    assert_eq!(repo.item(path("a b/c.md")).unwrap().content(&mut repo).unwrap(), b"text");
}
