use smeagol::{ContentType, Filetype, Path};

fn filetype(path: &str) -> Filetype {
    Filetype::from(&Path::from(path.to_string()))
}

#[test]
fn filetype_by_extension() {
    assert_eq!(filetype("index.md"), Filetype::Markdown);
    assert_eq!(filetype("dir/picture.png"), Filetype::Png);
    assert_eq!(filetype("notes.txt"), Filetype::Raw);
    assert_eq!(filetype("plain"), Filetype::Raw);
    assert_eq!(filetype(""), Filetype::Raw);
    assert_eq!(filetype(".md"), Filetype::Raw);
    assert_eq!(filetype("a.b.md"), Filetype::Raw);
    assert_eq!(filetype(".a.md"), Filetype::Markdown);
    assert_eq!(filetype("a.MD"), Filetype::Raw);
    assert_eq!(filetype("a.md/b"), Filetype::Raw);
    assert_eq!(Filetype::of(&Path::from(vec![b'a', b'.', 0xff])), Filetype::Raw);
}

#[test]
fn filetype_flags() {
    assert!(Filetype::Markdown.is_safe());
    assert!(!Filetype::Raw.is_safe());
    assert!(!Filetype::Png.is_safe());
    assert!(Filetype::Png.is_raw());
    assert!(!Filetype::Raw.is_raw());
    assert!(!Filetype::Markdown.is_raw());
    assert!(Filetype::Png.is_raw_inline());
}

#[test]
fn filetype_content_types() {
    assert_eq!(Filetype::Raw.content_type(), ContentType::Binary);
    assert_eq!(Filetype::Png.content_type(), ContentType::Png);
    assert_eq!(Filetype::Markdown.content_type(), ContentType::Markdown);
}

#[test]
fn content_types_in_words() {
    assert_eq!(ContentType::Plain.to_string(), "text/plain; charset=utf-8");
    assert_eq!(ContentType::Html.to_string(), "text/html; charset=utf-8");
    assert_eq!(ContentType::Markdown.to_string(), "application/markdown; charset=utf-8");
    assert_eq!(ContentType::Json.to_string(), "application/json");
    assert_eq!(ContentType::Png.to_string(), "image/png");
    assert_eq!(ContentType::Jpg.to_string(), "image/jpeg");
    assert_eq!(ContentType::Binary.to_string(), "application/octet-stream");
}

#[test]
fn raw_text_is_shown_as_it_is() {
    assert_eq!(Filetype::Raw.parse("# not *markdown*").unwrap(), "# not *markdown*");
    assert_eq!(Filetype::Raw.parse("").unwrap(), "");
}

#[test]
fn markdown_is_rendered() {
    assert_eq!(Filetype::Markdown.parse("# Title").unwrap(), "<h1>Title</h1>\n");
    assert_eq!(
        Filetype::Markdown.parse("some *text*").unwrap(),
        "<p>some <em>text</em></p>\n"
    );
}

#[test]
fn markdown_extensions_are_on() {
    assert_eq!(
        Filetype::Markdown.parse("~gone~").unwrap(),
        "<p><del>gone</del></p>\n"
    );
    let table = Filetype::Markdown.parse("| a | b |\n|---|---|\n| c | d |\n").unwrap();
    assert!(table.starts_with("<table>"));
    let tasks = Filetype::Markdown.parse("* [x] done\n* [ ] open\n").unwrap();
    assert!(tasks.contains("type=\"checkbox\""));
    assert!(tasks.contains("checked=\"\""));
}
