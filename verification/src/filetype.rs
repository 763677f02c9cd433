//! File types: how the content at a path is to be shown.

use crate::path::{extension_of, Path};
use vstd::prelude::*;
use vstd::std_specs::convert::FromSpecImpl;

verus! {

/// The media type that content is sent with.
#[derive(Clone, Copy, Debug, PartialEq, Eq, Structural)]
pub enum ContentType {
    Plain,
    Html,
    Markdown,
    Json,
    Png,
    Jpg,
    Binary,
}

impl ContentType {
    /// The media type as it stands in a header.
    pub fn to_string(&self) -> (text: String)
        ensures
            text@ == match self {
                ContentType::Plain => "text/plain; charset=utf-8"@,
                ContentType::Html => "text/html; charset=utf-8"@,
                ContentType::Markdown => "application/markdown; charset=utf-8"@,
                ContentType::Json => "application/json"@,
                ContentType::Png => "image/png"@,
                ContentType::Jpg => "image/jpeg"@,
                ContentType::Binary => "application/octet-stream"@,
            },
    {
        match self {
            ContentType::Plain => "text/plain; charset=utf-8".to_owned(),
            ContentType::Html => "text/html; charset=utf-8".to_owned(),
            ContentType::Markdown => "application/markdown; charset=utf-8".to_owned(),
            ContentType::Json => "application/json".to_owned(),
            ContentType::Png => "image/png".to_owned(),
            ContentType::Jpg => "image/jpeg".to_owned(),
            ContentType::Binary => "application/octet-stream".to_owned(),
        }
    }
}

/// What kind of file a path names, by its extension.
#[derive(Clone, Copy, Debug, PartialEq, Eq, Structural)]
pub enum Filetype {
    /// Anything else: shown as it is.
    Raw,
    /// A PNG image: sent as it is, to be shown in place.
    Png,
    /// Markdown: rendered to HTML.
    Markdown,
}

/// Why content could not be parsed. No file type reports it: `parse`
/// always succeeds.
#[derive(Clone, Copy, Debug, PartialEq, Eq, Structural)]
pub enum ParsingError {
    /// The content is not of the file type.
    Unparsable,
}

/// The extension `md`.
pub open spec fn markdown_extension() -> Seq<u8> {
    seq![0x6du8, 0x64u8]
}

/// The extension `png`.
pub open spec fn png_extension() -> Seq<u8> {
    seq![0x70u8, 0x6eu8, 0x67u8]
}

/// The file type of a path: Markdown for the extension `md`, PNG for
/// `png`, raw for every other and for none.
pub open spec fn filetype_of(path: Seq<Seq<u8>>) -> Filetype {
    if path.len() == 0 {
        Filetype::Raw
    } else {
        match extension_of(path.last()) {
            Some(extension) => if extension == markdown_extension() {
                Filetype::Markdown
            } else if extension == png_extension() {
                Filetype::Png
            } else {
                Filetype::Raw
            },
            None => Filetype::Raw,
        }
    }
}

/// The HTML that `comrak::markdown_to_html` makes of `text` with the
/// extensions for strikethrough, tables and task lists switched as given and
/// every other option at its default.
pub uninterp spec fn markdown_html(
    text: Seq<char>,
    strikethrough: bool,
    table: bool,
    tasklist: bool,
) -> Seq<char>;

/// `comrak::markdown_to_html`, with the three extensions switched as
/// given: its result is given the name `markdown_html`.
#[verifier::external_body]
fn render_markdown(text: &str, strikethrough: bool, table: bool, tasklist: bool) -> (html: String)
    ensures
        html@ == markdown_html(text@, strikethrough, table, tasklist),
{
    let mut options = comrak::ComrakOptions::default();
    options.ext_strikethrough = strikethrough;
    options.ext_table = table;
    options.ext_tasklist = tasklist;
    comrak::markdown_to_html(text, &options)
}

impl Filetype {
    /// Whether the parsed content is markup of its own, to be shown as it
    /// is.
    pub fn is_safe(&self) -> (safe: bool)
        ensures
            safe == (self is Markdown),
    {
        match self {
            Filetype::Markdown => true,
            _ => false,
        }
    }

    /// Whether the content is sent as it is and not shown in a page.
    pub fn is_raw(&self) -> (raw: bool)
        ensures
            raw == (self is Png),
    {
        match self {
            Filetype::Png => true,
            _ => false,
        }
    }

    /// Whether content that is sent as it is stands in place and is not
    /// offered for download. Asked of such file types only.
    pub fn is_raw_inline(&self) -> (inline: bool)
        requires
            self is Png,
        ensures
            inline,
    {
        true
    }

    /// The media type that the content is sent with.
    pub fn content_type(&self) -> (content_type: ContentType)
        ensures
            content_type == match self {
                Filetype::Raw => ContentType::Binary,
                Filetype::Png => ContentType::Png,
                Filetype::Markdown => ContentType::Markdown,
            },
    {
        match self {
            Filetype::Raw => ContentType::Binary,
            Filetype::Png => ContentType::Png,
            Filetype::Markdown => ContentType::Markdown,
        }
    }

    /// What is shown for the text of a file: the text as it is, or, for
    /// Markdown, the HTML rendered from it. Not asked of file types that are
    /// sent as they are.
    pub fn parse(&self, data: &str) -> (parsed: Result<String, ParsingError>)
        requires
            !(self is Png),
        ensures
            parsed matches Ok(shown) && shown@ == match self {
                Filetype::Markdown => markdown_html(data@, true, true, true),
                _ => data@,
            },
    {
        match self {
            Filetype::Markdown => self.parse_markdown(data),
            _ => Ok(data.to_owned()),
        }
    }

    /// The HTML for Markdown text, with strikethrough, tables and task
    /// lists.
    fn parse_markdown(&self, data: &str) -> (parsed: Result<String, ParsingError>)
        ensures
            parsed matches Ok(html) && html@ == markdown_html(data@, true, true, true),
    {
        Ok(render_markdown(data, true, true, true))
    }

    /// The file type of a path.
    pub fn of(path: &Path) -> (filetype: Filetype)
        ensures
            filetype == filetype_of(path@),
    {
        match path.extension() {
            Some(extension) => {
                if crate::git::bytes_eq(extension.as_slice(), &[0x6du8, 0x64u8]) {
                    Filetype::Markdown
                } else if crate::git::bytes_eq(extension.as_slice(), &[0x70u8, 0x6eu8, 0x67u8]) {
                    Filetype::Png
                } else {
                    Filetype::Raw
                }
            },
            None => Filetype::Raw,
        }
    }
}

impl From<&Path> for Filetype {
    fn from(path: &Path) -> (filetype: Filetype) {
        Filetype::of(path)
    }
}

impl FromSpecImpl<&Path> for Filetype {
    open spec fn obeys_from_spec() -> bool {
        true
    }

    open spec fn from_spec(path: &Path) -> Filetype {
        filetype_of(path@)
    }
}

} // verus!
