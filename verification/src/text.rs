//! Text built from bytes: what the standard library does for the library,
//! behind functions that are trusted to meet what they state.

use vstd::prelude::*;
use vstd::utf8::{decode_utf8, valid_utf8};

verus! {

/// The text that `String::from_utf8_lossy` makes of `bytes`: their UTF-8
/// decoding, with the replacement character for each ill-formed part.
pub uninterp spec fn utf8_lossy(bytes: Seq<u8>) -> Seq<char>;

/// The text that bytes are shown as: the text they encode where they are
/// valid UTF-8, and what `utf8_lossy` names where they are not.
pub open spec fn lossy(bytes: Seq<u8>) -> Seq<char> {
    if valid_utf8(bytes) {
        decode_utf8(bytes)
    } else {
        utf8_lossy(bytes)
    }
}

/// What `std::path::Path::to_str` gives for a path of the platform: its
/// text where it is valid Unicode, and nothing where it is not.
pub uninterp spec fn path_text(path: std::path::PathBuf) -> Option<Seq<char>>;

/// `String::from_utf8_lossy`: its result is given the name `utf8_lossy`,
/// and is trusted to be the text that the bytes encode where they are
/// valid UTF-8, as the function documents.
#[verifier::external_body]
pub(crate) fn lossy_text(bytes: &[u8]) -> (text: String)
    ensures
        text@ == utf8_lossy(bytes@),
        valid_utf8(bytes@) ==> text@ == decode_utf8(bytes@),
{
    String::from_utf8_lossy(bytes).into_owned()
}

/// `String::push`: trusted to append the character.
#[verifier::external_body]
pub(crate) fn push_char(text: &mut String, c: char)
    ensures
        final(text)@ == old(text)@.push(c),
{
    text.push(c)
}

/// `String::from_utf8`: trusted to return the text that the bytes encode
/// where they are valid UTF-8, and nothing where they are not.
#[verifier::external_body]
pub(crate) fn text_of(bytes: Vec<u8>) -> (text: Option<String>)
    ensures
        match text {
            Some(t) => valid_utf8(bytes@) && t@ == decode_utf8(bytes@),
            None => !valid_utf8(bytes@),
        },
{
    String::from_utf8(bytes).ok()
}

/// `std::path::PathBuf::from` on a text: trusted to make the path of the
/// platform whose text is the text given.
#[verifier::external_body]
pub(crate) fn std_path_of(text: String) -> (path: std::path::PathBuf)
    ensures
        path_text(path) == Some(text@),
{
    std::path::PathBuf::from(text)
}

/// `std::path::Path::to_str`: its result is given the name `path_text`.
#[verifier::external_body]
pub(crate) fn std_path_text(path: &std::path::PathBuf) -> (text: Option<&str>)
    ensures
        match text {
            Some(t) => path_text(*path) == Some(t@),
            None => path_text(*path) is None,
        },
{
    path.to_str()
}

} // verus!
