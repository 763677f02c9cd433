use smeagol::{Path, PathStringBuilder};
use std::path::PathBuf as StdPathBuf;

fn path(text: &str) -> Path {
    Path::from(text.to_string())
}

#[test]
fn from_vec() {
    let vec = vec![1, 2, 3, 4, 5, 6];
    let path = Path::from(vec.clone());
    assert_eq!(path.bytes(), &vec[..]);
}

#[test]
fn from_string() {
    let s = "path/test";
    let path = Path::from(s.to_string());
    assert_eq!(path.bytes().to_vec(), s.bytes().collect::<Vec<_>>());
}

#[test]
fn from_std_path() {
    let path_string = "path/test";
    let std_path = StdPathBuf::from(path_string);
    let path = Path::from_std_path(&std_path).unwrap();

    assert_eq!(path.bytes().to_vec(), path_string.bytes().collect::<Vec<_>>());
}

#[test]
fn empty_path() {
    let path = Path::new();
    assert_eq!(path.bytes().to_vec(), Vec::<u8>::new());
}

#[test]
fn normalize() {
    let path = Path::from("/abc//def/".to_string());
    assert_eq!(path.to_string(), "abc/def");
}

#[test]
fn push() {
    let mut path1 = Path::new();
    let path2 = Path::from("abc".to_string());
    path1.push(path2);
    assert_eq!(path1, Path::from("abc".to_string()));

    let mut path1 = Path::from("abc".to_string());
    let path2 = Path::from("def".to_string());
    path1.push(path2);
    assert_eq!(path1.to_string(), "abc/def");
}

#[test]
fn pop_first() {
    let mut path = Path::from("abc/def".to_string());
    let first = path.pop_first();
    assert_eq!(first, Some(Path::from("abc".to_string())));
    assert_eq!(path, Path::from("def".to_string()));

    let mut path = Path::from("abc".to_string());
    let first = path.pop_first();
    assert_eq!(first, Some(Path::from("abc".to_string())));
    assert_eq!(path, Path::new());

    let mut path = Path::new();
    let first = path.pop_first();
    assert_eq!(first, None);
    assert_eq!(path, Path::new());
}

#[test]
fn parent() {
    let path = Path::from("".to_string());
    assert_eq!(path.parent(), None);

    let path = Path::from("abc".to_string());
    assert_eq!(path.parent(), Some(Path::new()));

    let path = Path::from("abc/def".to_string());
    assert_eq!(path.parent(), Some(Path::from("abc".to_string())));
}

#[test]
fn filename() {
    let path = Path::new();
    assert_eq!(path.filename(), None);

    let path = Path::from("abc".to_string());
    assert_eq!(path.filename(), Some(Path::from("abc".to_string())));

    let path = Path::from("abc/def".to_string());
    assert_eq!(path.filename(), Some(Path::from("def".to_string())));
}

#[test]
fn extension() {
    let path = Path::from("".to_string());
    assert_eq!(path.extension(), None);

    let path = Path::from("abc".to_string());
    assert_eq!(path.extension(), None);

    let path = Path::from(".abc".to_string());
    assert_eq!(path.extension(), None);

    let path = Path::from("a.abc".to_string());
    assert_eq!(path.extension(), Some("abc".to_string().into_bytes()));

    let path = Path::from(".a.abc".to_string());
    assert_eq!(path.extension(), Some("abc".to_string().into_bytes()));

    let path = Path::from("a.abc.def".to_string());
    assert_eq!(path.extension(), Some("abc.def".to_string().into_bytes()));
}

#[test]
fn extension_of_named_examples() {
    assert_eq!(path("a.b.c").extension(), Some(b"b.c".to_vec()));
    assert_eq!(path(".hidden").extension(), None);
    assert_eq!(path("plain").extension(), None);
    assert_eq!(path(".a.b").extension(), Some(b"b".to_vec()));
}

#[test]
fn extension_is_taken_from_the_last_segment() {
    assert_eq!(path("dir.d/readme").extension(), None);
    assert_eq!(path("dir.d/readme.md").extension(), Some(b"md".to_vec()));
    assert_eq!(path("dir/name.").extension(), Some(Vec::new()));
    assert_eq!(path("dir/..").extension(), Some(Vec::new()));
    assert_eq!(path("dir/.").extension(), None);
}

#[test]
fn normalize_collapses_every_run_of_separators() {
    assert_eq!(path("///").bytes(), b"");
    assert_eq!(path("/").bytes(), b"");
    assert_eq!(path("a///b////c").bytes(), b"a/b/c");
    assert_eq!(path("//a//").bytes(), b"a");
    assert_eq!(path("///a/b").bytes(), b"a/b");
    assert_eq!(path("a/b///").bytes(), b"a/b");
    assert!(path("//").is_empty());
    assert!(!path("/a").is_empty());
}

#[test]
fn paths_hold_bytes_that_are_no_text() {
    let raw = vec![0xff, 0x2f, 0xfe, 0x2f, 0x2f, 0x00];
    let p = Path::from(raw);
    assert_eq!(p.bytes(), &[0xff, 0x2f, 0xfe, 0x2f, 0x00][..]);
    assert_eq!(p.filename().unwrap().bytes(), &[0x00][..]);
    assert_eq!(p.to_string(), "\u{fffd}/\u{fffd}/\u{0}");
}

#[test]
fn push_of_the_root_changes_nothing() {
    let mut p = path("a/b");
    p.push(Path::new());
    assert_eq!(p.bytes(), b"a/b");

    let mut root = Path::new();
    root.push(Path::new());
    assert!(root.is_empty());
}

#[test]
fn push_appends_all_segments() {
    let mut p = path("a/b");
    p.push(path("/c//d/"));
    assert_eq!(p.bytes(), b"a/b/c/d");
    assert_eq!(p.segments(), vec![b"a".to_vec(), b"b".to_vec(), b"c".to_vec(), b"d".to_vec()]);
}

#[test]
fn pop_first_walks_the_segments() {
    let mut p = path("a/bc/d");
    assert_eq!(p.pop_first().unwrap().bytes(), b"a");
    assert_eq!(p.bytes(), b"bc/d");
    assert_eq!(p.pop_first().unwrap().bytes(), b"bc");
    assert_eq!(p.pop_first().unwrap().bytes(), b"d");
    assert!(p.is_empty());
    assert_eq!(p.pop_first(), None);
}

#[test]
fn segments_of_the_root_is_one_empty_piece() {
    assert_eq!(Path::new().segments(), vec![Vec::<u8>::new()]);
    assert_eq!(path("abc").segments(), vec![b"abc".to_vec()]);
    assert_eq!(path("/x//yz/").segments(), vec![b"x".to_vec(), b"yz".to_vec()]);
}

#[test]
fn parent_and_filename_split_at_the_last_separator() {
    let p = path("a/b/c.md");
    assert_eq!(p.parent().unwrap().bytes(), b"a/b");
    assert_eq!(p.filename().unwrap().bytes(), b"c.md");
    let mut back = p.parent().unwrap();
    back.push(p.filename().unwrap());
    assert_eq!(back, p);
}

#[test]
fn to_std_path_needs_text() {
    assert_eq!(path("a/b c").to_std_path(), Some(StdPathBuf::from("a/b c")));
    assert_eq!(Path::new().to_std_path(), Some(StdPathBuf::from("")));
    assert_eq!(Path::from(vec![b'a', 0xff]).to_std_path(), None);
    assert_eq!(Path::from_std_path(&StdPathBuf::from("/x//y/")).unwrap().bytes(), b"x/y");
}

#[test]
fn a_path_of_text_comes_back_from_the_platform_path() {
    for text in ["a/b c", "ä/ö.md", "x", ""] {
        let p = path(text);
        let made = p.to_std_path().unwrap();
        assert_eq!(made, StdPathBuf::from(text));
        assert_eq!(Path::from_std_path(&made), Some(p));
    }
}

#[test]
fn text_is_shown_as_it_is() {
    assert_eq!(path("ä/ö.md").to_string(), "ä/ö.md");
    assert_eq!(Path::from(vec![b'a', 0x80, b'b']).to_string(), "a\u{fffd}b");
}

#[test]
fn from_text_is_there_for_a_text() {
    assert_eq!(Path::from_text(Some("/a/b/")), Some(path("a/b")));
    assert_eq!(Path::from_text(None), None);
}

#[test]
fn clone_is_equal() {
    let p = path("a/b");
    let q = p.clone();
    assert_eq!(p, q);
    assert_eq!(q.bytes(), b"a/b");
}

#[test]
fn from_str_reads_utf8() {
    let p = Path::from_str("/ä/b");
    assert_eq!(p.bytes(), "ä/b".as_bytes());
}

#[test]
fn percent_encode_escapes_the_set() {
    assert_eq!(path("a b/c").percent_encode(), "a%20b/c");
    assert_eq!(path("100%").percent_encode(), "100%25");
    assert_eq!(path("q?x#y").percent_encode(), "q%3Fx%23y");
    assert_eq!(path("\"<>`{}").percent_encode(), "%22%3C%3E%60%7B%7D");
    let plain = "plain-._~!$&'()*+,;=:@[]^|\\";
    assert_eq!(path(plain).percent_encode(), plain);
    assert_eq!(Path::from(vec![0x00, 0x1f, 0x7f, 0x80, 0xff]).percent_encode(), "%00%1F%7F%80%FF");
    assert_eq!(path("ä").percent_encode(), "%C3%A4");
    assert_eq!(Path::new().percent_encode(), "");
}

#[test]
fn from_percent_encoded_decodes_escapes() {
    assert_eq!(Path::from_percent_encoded(b"/a%20b/c").bytes(), b"a b/c");
    assert_eq!(Path::from_percent_encoded(b"a%2fb").bytes(), b"a/b");
    assert_eq!(Path::from_percent_encoded(b"a%2Fb").bytes(), b"a/b");
    assert_eq!(Path::from_percent_encoded(b"%41%4a%6B").bytes(), b"AJk");
    assert_eq!(Path::from_percent_encoded(b"%FF").bytes(), &[0xff][..]);
}

#[test]
fn from_percent_encoded_keeps_stray_percent_signs() {
    assert_eq!(Path::from_percent_encoded(b"100%").bytes(), b"100%");
    assert_eq!(Path::from_percent_encoded(b"%4").bytes(), b"%4");
    assert_eq!(Path::from_percent_encoded(b"%zz").bytes(), b"%zz");
    assert_eq!(Path::from_percent_encoded(b"%4x41").bytes(), b"%4x41");
    assert_eq!(Path::from_percent_encoded(b"%%41").bytes(), b"%A");
    assert_eq!(Path::from_percent_encoded(b"%2%41").bytes(), b"%2A");
}

#[test]
fn percent_encoding_round_trips() {
    let mut all: Vec<u8> = Vec::new();
    for b in 0..=255u8 {
        all.push(b);
        all.push(b'x');
    }
    let p = Path::from(all);
    let encoded = p.percent_encode();
    assert!(encoded.is_ascii());
    assert_eq!(Path::from_percent_encoded(encoded.as_bytes()), p);
}

#[test]
fn string_builder_adds_separators() {
    let p = path("a b/c");
    assert_eq!(PathStringBuilder::new(p.clone()).build_lossy(), "a b/c");
    assert_eq!(PathStringBuilder::new(p.clone()).root(true).build_lossy(), "/a b/c");
    assert_eq!(PathStringBuilder::new(p.clone()).dir(true).build_lossy(), "a b/c/");
    assert_eq!(PathStringBuilder::new(p.clone()).root(true).dir(true).build_lossy(), "/a b/c/");
    assert_eq!(PathStringBuilder::new(p.clone()).build_percent_encode(), "a%20b/c");
    assert_eq!(
        PathStringBuilder::new(p.clone()).root(true).build_percent_encode(),
        "/a%20b/c"
    );
    assert_eq!(
        PathStringBuilder::new(p).root(true).dir(true).root(false).build_percent_encode(),
        "a%20b/c/"
    );
    assert_eq!(PathStringBuilder::new(Path::new()).root(true).build_percent_encode(), "/");
    assert_eq!(PathStringBuilder::new(Path::new()).dir(true).build_lossy(), "/");
}
