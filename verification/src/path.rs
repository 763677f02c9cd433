//! Paths into the store: normalized lists of byte-string segments.

use crate::segments::{
    all_segments, is_normal, is_segment, join, lemma_join_segments_of,
    lemma_segments_are_segments, lemma_segments_of_join, lemma_segments_of_segment,
    lemma_segments_split, segments_of, EXTENSION_SEPARATOR, PATH_SEPARATOR,
};
use crate::percent::{decode_bytes, percent_decoded, percent_encode, percent_encoded};
use crate::text::{
    lossy, lossy_text, path_text, push_char, std_path_of, std_path_text, text_of,
};
use vstd::prelude::*;
use vstd::slice::{slice_subrange, slice_to_vec};
use vstd::std_specs::convert::FromSpecImpl;
use vstd::utf8::{decode_utf8, encode_utf8, valid_utf8};

verus! {

/// The index of the first extension separator of `name` at or after `from`,
/// or `name.len()` if there is none.
pub open spec fn first_dot(name: Seq<u8>, from: int) -> int
    decreases name.len() - from,
{
    if from < 0 || from >= name.len() {
        name.len() as int
    } else if name[from] == EXTENSION_SEPARATOR {
        from
    } else {
        first_dot(name, from + 1)
    }
}

/// The extension of a file name: what follows its first extension separator,
/// where a separator that opens the name does not count. A name without
/// such a separator has no extension.
pub open spec fn extension_of(name: Seq<u8>) -> Option<Seq<u8>> {
    let dot = first_dot(name, 1);
    if dot < name.len() {
        Some(name.skip(dot + 1))
    } else {
        None
    }
}

/// A path whose bytes are text is the path written in that text: made into
/// a path of the platform and read back from it, it is the same path.
pub proof fn law_text_names_its_path(path: Seq<Seq<u8>>)
    requires
        all_segments(path),
        valid_utf8(join(path)),
    ensures
        segments_of(encode_utf8(decode_utf8(join(path)))) == path,
{
    vstd::utf8::decode_utf8_encode_utf8(join(path));
    lemma_segments_of_join(path);
}

/// What iterating over the pieces between separators gives for a path with
/// the segments `segs`: the segments, or one empty piece for the root.
pub open spec fn pieces(segs: Seq<Seq<u8>>) -> Seq<Seq<u8>> {
    if segs.len() == 0 {
        seq![Seq::<u8>::empty()]
    } else {
        segs
    }
}

/// A location in the hierarchy.
///
/// The bytes are kept in normal form: segments with one separator between
/// neighbours, none at either end. The view is the list of segments; the
/// root is the empty list.
#[derive(Debug, PartialEq, Eq)]
pub struct Path {
    content: Vec<u8>,
}

impl View for Path {
    type V = Seq<Seq<u8>>;

    closed spec fn view(&self) -> Seq<Seq<u8>> {
        segments_of(self.content@)
    }
}

impl Clone for Path {
    fn clone(&self) -> (copy: Path)
        ensures
            copy@ == self@,
    {
        proof {
            use_type_invariant(self);
        }
        let content = slice_to_vec(self.content.as_slice());
        Path { content }
    }
}

/// `std::path::PathBuf`, a path of the platform: a value of it is carried
/// through, and nothing is known of what it holds.
#[verifier::external_type_specification]
#[verifier::external_body]
pub struct ExPathBuf(std::path::PathBuf);

impl From<Vec<u8>> for Path {
    /// The path whose segments are written in `content`.
    fn from(content: Vec<u8>) -> (path: Path)
        ensures
            path@ == segments_of(content@),
    {
        Path::from_vec(content)
    }
}

impl FromSpecImpl<Vec<u8>> for Path {
    open spec fn obeys_from_spec() -> bool {
        false
    }

    open spec fn from_spec(content: Vec<u8>) -> Path {
        arbitrary()
    }
}

impl From<String> for Path {
    /// The path whose segments are written in the UTF-8 bytes of `text`.
    fn from(text: String) -> (path: Path)
        ensures
            path@ == segments_of(encode_utf8(text@)),
    {
        Path::from_str(text.as_str())
    }
}

impl FromSpecImpl<String> for Path {
    open spec fn obeys_from_spec() -> bool {
        false
    }

    open spec fn from_spec(text: String) -> Path {
        arbitrary()
    }
}

impl Path {
    #[verifier::type_invariant]
    spec fn well_formed(&self) -> bool {
        is_normal(self.content@)
    }

    /// The elements of a path's view are segments.
    pub proof fn lemma_view_segments(&self)
        ensures
            all_segments(self@),
    {
        lemma_segments_are_segments(self.content@);
    }

    /// The root.
    pub fn new() -> (path: Path)
        ensures
            path@ == Seq::<Seq<u8>>::empty(),
    {
        Path { content: Vec::new() }
    }

    /// The path whose segments are written in `content`.
    pub fn from_vec(content: Vec<u8>) -> (path: Path)
        ensures
            path@ == segments_of(content@),
    {
        let ghost written = content@;
        let content = Self::normalize(content);
        proof {
            lemma_segments_are_segments(written);
            lemma_segments_of_join(segments_of(written));
        }
        Path { content }
    }

    /// The path whose segments are written in the UTF-8 bytes of `text`.
    pub fn from_str(text: &str) -> (path: Path)
        ensures
            path@ == segments_of(encode_utf8(text@)),
    {
        Path::from_vec(slice_to_vec(text.as_bytes()))
    }

    /// The path whose segments are written in `text`, if there is a text.
    pub fn from_text(text: Option<&str>) -> (path: Option<Path>)
        ensures
            match path {
                Some(p) => text matches Some(t) && p@ == segments_of(encode_utf8(t@)),
                None => text is None,
            },
    {
        match text {
            Some(text) => Some(Path::from_str(text)),
            None => None,
        }
    }

    /// The path that a platform path names: the path written in its text,
    /// if the platform path is valid Unicode and so has a text.
    pub fn from_std_path(path: &std::path::PathBuf) -> (converted: Option<Path>)
        ensures
            match converted {
                Some(p) => path_text(*path) matches Some(t) && p@ == segments_of(encode_utf8(t)),
                None => path_text(*path) is None,
            },
    {
        Path::from_text(std_path_text(path))
    }

    /// The path as a path of the platform, if its bytes are valid UTF-8:
    /// the platform path whose text is what the bytes encode. Only text
    /// names a platform path.
    pub fn to_std_path(&self) -> (converted: Option<std::path::PathBuf>)
        ensures
            match converted {
                Some(made) => valid_utf8(join(self@)) && path_text(made) == Some(
                    decode_utf8(join(self@)),
                ),
                None => !valid_utf8(join(self@)),
            },
    {
        match text_of(slice_to_vec(self.bytes())) {
            Some(text) => Some(std_path_of(text)),
            None => None,
        }
    }

    /// The path whose segments are written in the percent-decoding of
    /// `encoded`.
    pub fn from_percent_encoded(encoded: &[u8]) -> (path: Path)
        ensures
            path@ == segments_of(percent_decoded(encoded@)),
    {
        Path::from_vec(decode_bytes(encoded))
    }

    /// The path's bytes in percent-encoding, for links and URLs.
    pub fn percent_encode(&self) -> (text: String)
        ensures
            text@ == percent_encoded(join(self@)),
    {
        percent_encode(self.bytes())
    }

    /// The path's bytes as text: the text they encode where they are valid
    /// UTF-8, else with the replacement character for each ill-formed part.
    pub fn to_string(&self) -> (text: String)
        ensures
            text@ == lossy(join(self@)),
    {
        lossy_text(self.bytes())
    }

    /// Brings bytes into normal form: runs of separators become one, and a
    /// separator at either end goes.
    fn normalize(content: Vec<u8>) -> (out: Vec<u8>)
        ensures
            is_normal(out@),
            out@ == join(segments_of(content@)),
    {
        let mut out: Vec<u8> = Vec::new();
        let mut i: usize = 0;
        assert(out@ + content@.skip(0) =~= content@);
        while i < content.len()
            invariant
                i <= content.len(),
                segments_of(out@ + content@.skip(i as int)) == segments_of(content@),
                out@.len() > 0 ==> out@[0] != PATH_SEPARATOR,
                forall|j: int|
                    0 <= j < out@.len() - 1 ==> !(out@[j] == PATH_SEPARATOR && #[trigger] out@[j
                        + 1] == PATH_SEPARATOR),
            decreases content.len() - i,
        {
            let b = content[i];
            let ghost before = out@;
            let ghost rest = content@.skip(i as int + 1);
            assert(content@.skip(i as int) =~= seq![b] + rest);
            if b == PATH_SEPARATOR && (out.len() == 0 || out[out.len() - 1] == PATH_SEPARATOR) {
                proof {
                    let sep = seq![PATH_SEPARATOR];
                    if before.len() == 0 {
                        assert(before + content@.skip(i as int) =~= sep + rest);
                        assert((sep + rest).skip(1) =~= rest);
                        assert(before + rest =~= rest);
                    } else {
                        let o = before.drop_last();
                        assert(before + content@.skip(i as int) =~= o + sep + (sep + rest));
                        lemma_segments_split(o, sep + rest);
                        assert((sep + rest).skip(1) =~= rest);
                        lemma_segments_split(o, rest);
                        assert(before + rest =~= o + sep + rest);
                    }
                }
            } else {
                out.push(b);
                proof {
                    assert(out@ + rest =~= before + content@.skip(i as int));
                    assert forall|j: int| 0 <= j < out@.len() - 1 implies !(out@[j]
                        == PATH_SEPARATOR && #[trigger] out@[j + 1] == PATH_SEPARATOR) by {
                        if j + 1 < before.len() {
                            assert(out@[j] == before[j]);
                            assert(out@[j + 1] == before[j + 1]);
                        }
                    }
                }
            }
            i += 1;
        }
        proof {
            assert(out@ + content@.skip(i as int) =~= out@);
        }
        if out.len() > 0 && out[out.len() - 1] == PATH_SEPARATOR {
            let ghost full = out@;
            out.pop();
            proof {
                let o = out@;
                assert(o =~= full.drop_last());
                assert(full =~= o + seq![PATH_SEPARATOR] + Seq::<u8>::empty());
                lemma_segments_split(o, Seq::<u8>::empty());
                assert(segments_of(o) + segments_of(Seq::<u8>::empty()) =~= segments_of(o));
                if o.len() > 0 {
                    assert(full[(o.len() - 1) + 1] == PATH_SEPARATOR);
                    assert(o[o.len() - 1] == full[o.len() - 1]);
                    assert(o[0] == full[0]);
                }
                assert forall|j: int| 0 <= j < o.len() - 1 implies !(o[j] == PATH_SEPARATOR
                    && #[trigger] o[j + 1] == PATH_SEPARATOR) by {
                    assert(o[j] == full[j]);
                    assert(o[j + 1] == full[j + 1]);
                }
            }
        }
        proof {
            lemma_join_segments_of(out@);
        }
        out
    }

    /// Appends the segments of `path` to this path.
    pub fn push(&mut self, path: Path)
        ensures
            final(self)@ == old(self)@ + path@,
    {
        proof {
            use_type_invariant(&*self);
            use_type_invariant(&path);
            lemma_join_segments_of(self.content@);
            lemma_join_segments_of(path.content@);
        }
        if path.content.len() == 0 {
            assert(self@ + path@ =~= self@);
        } else if self.content.len() == 0 {
            assert(self@ + path@ =~= path@);
            self.content = path.content;
        } else {
            let ghost a = self.content@;
            let ghost c = path.content@;
            let mut joined = slice_to_vec(self.content.as_slice());
            joined.push(PATH_SEPARATOR);
            let mut i: usize = 0;
            while i < path.content.len()
                invariant
                    i <= path.content.len(),
                    c == path.content@,
                    joined@ == a + seq![PATH_SEPARATOR] + c.take(i as int),
                decreases path.content.len() - i,
            {
                joined.push(path.content[i]);
                proof {
                    assert(c.take(i as int + 1) =~= c.take(i as int).push(c[i as int]));
                    assert(joined@ =~= a + seq![PATH_SEPARATOR] + c.take(i as int + 1));
                }
                i += 1;
            }
            proof {
                assert(c.take(i as int) =~= c);
                lemma_segments_split(a, c);
                let s = a + seq![PATH_SEPARATOR] + c;
                assert(is_normal(s)) by {
                    assert(s[0] == a[0]);
                    assert(s[s.len() - 1] == c[c.len() - 1]);
                    assert forall|j: int| 0 <= j < s.len() - 1 implies !(s[j] == PATH_SEPARATOR
                        && #[trigger] s[j + 1] == PATH_SEPARATOR) by {
                        if j + 1 < a.len() {
                            assert(s[j] == a[j]);
                            assert(s[j + 1] == a[j + 1]);
                        } else if j + 1 == a.len() {
                            assert(s[j] == a[a.len() - 1]);
                        } else if j == a.len() {
                            assert(s[j + 1] == c[0]);
                        } else {
                            assert(s[j] == c[j - a.len() - 1]);
                            assert(s[j + 1] == c[(j - a.len() - 1) + 1]);
                        }
                    }
                }
            }
            self.content = joined;
        }
    }

    /// Takes the first segment off this path and returns it as a path of its
    /// own. The root has none and stays as it is.
    pub fn pop_first(&mut self) -> (first: Option<Path>)
        ensures
            match first {
                Some(p) => old(self)@.len() > 0 && p@ == seq![old(self)@[0]] && final(self)@
                    == old(self)@.skip(1),
                None => old(self)@.len() == 0 && final(self)@ == old(self)@,
            },
    {
        proof {
            use_type_invariant(&*self);
            lemma_join_segments_of(self.content@);
        }
        let ghost s = self.content@;
        let len = self.content.len();
        let mut i: usize = 0;
        while i < len && self.content[i] != PATH_SEPARATOR
            invariant
                i <= len,
                len == self.content@.len(),
                s == self.content@,
                forall|j: int| 0 <= j < i ==> s[j] != PATH_SEPARATOR,
            decreases len - i,
        {
            i += 1;
        }
        if i < len {
            let head = slice_to_vec(slice_subrange(self.content.as_slice(), 0, i));
            let tail = slice_to_vec(slice_subrange(self.content.as_slice(), i + 1, len));
            proof {
                let a = s.take(i as int);
                let c = s.skip(i as int + 1);
                assert(head@ =~= a);
                assert(tail@ =~= c);
                assert(s =~= a + seq![PATH_SEPARATOR] + c);
                assert(is_segment(a));
                lemma_segments_split(a, c);
                lemma_segments_of_segment(a);
                assert(segments_of(s).skip(1) =~= segments_of(c));
                assert(is_normal(a));
                assert(is_normal(c)) by {
                    assert(c[0] == s[i as int + 1]);
                    assert(c[c.len() - 1] == s[s.len() - 1]);
                    assert forall|j: int| 0 <= j < c.len() - 1 implies !(c[j] == PATH_SEPARATOR
                        && #[trigger] c[j + 1] == PATH_SEPARATOR) by {
                        assert(c[j] == s[i + 1 + j]);
                        assert(c[j + 1] == s[(i + 1 + j) + 1]);
                    }
                }
            }
            self.content = tail;
            Some(Path { content: head })
        } else if len > 0 {
            let head = slice_to_vec(self.content.as_slice());
            proof {
                assert(is_segment(s));
                lemma_segments_of_segment(s);
                assert(segments_of(s).skip(1) =~= Seq::<Seq<u8>>::empty());
            }
            self.content = Vec::new();
            Some(Path { content: head })
        } else {
            None
        }
    }

    /// The index of the last separator, if there is one.
    fn last_separator(&self) -> (index: Option<usize>)
        ensures
            match index {
                Some(k) => k < self.content@.len() && self.content@[k as int] == PATH_SEPARATOR
                    && forall|j: int|
                    k < j < self.content@.len() ==> self.content@[j] != PATH_SEPARATOR,
                None => forall|j: int|
                    0 <= j < self.content@.len() ==> self.content@[j] != PATH_SEPARATOR,
            },
    {
        let mut i: usize = self.content.len();
        while i > 0
            invariant
                i <= self.content@.len(),
                forall|j: int| i <= j < self.content@.len() ==> self.content@[j] != PATH_SEPARATOR,
            decreases i,
        {
            i -= 1;
            if self.content[i] == PATH_SEPARATOR {
                return Some(i);
            }
        }
        None
    }

    /// What the bytes before and after the last separator stand for.
    proof fn lemma_split_at_last(s: Seq<u8>, k: int)
        requires
            is_normal(s),
            0 <= k < s.len(),
            s[k] == PATH_SEPARATOR,
            forall|j: int| k < j < s.len() ==> s[j] != PATH_SEPARATOR,
        ensures
            is_normal(s.take(k)),
            is_segment(s.skip(k + 1)),
            segments_of(s).len() > 0,
            segments_of(s.take(k)) == segments_of(s).drop_last(),
            segments_of(s).last() == s.skip(k + 1),
    {
        let a = s.take(k);
        let c = s.skip(k + 1);
        assert(s =~= a + seq![PATH_SEPARATOR] + c);
        assert(is_segment(c)) by {
            assert forall|j: int| 0 <= j < c.len() implies c[j] != PATH_SEPARATOR by {
                assert(c[j] == s[k + 1 + j]);
            }
        }
        lemma_segments_split(a, c);
        lemma_segments_of_segment(c);
        assert((segments_of(a) + seq![c]).drop_last() =~= segments_of(a));
        assert(is_normal(a)) by {
            assert(k > 0);
            assert(a[a.len() - 1] == s[k - 1]);
            assert(s[(k - 1) + 1] == PATH_SEPARATOR);
        }
    }

    /// The last segment as a path of its own. The root has none.
    pub fn filename(&self) -> (name: Option<Path>)
        ensures
            match name {
                Some(p) => self@.len() > 0 && p@ == seq![self@.last()],
                None => self@.len() == 0,
            },
    {
        proof {
            use_type_invariant(self);
            lemma_join_segments_of(self.content@);
        }
        let ghost s = self.content@;
        let len = self.content.len();
        let index = self.last_separator();
        if let Some(k) = index {
            let name = slice_to_vec(slice_subrange(self.content.as_slice(), k + 1, len));
            proof {
                Self::lemma_split_at_last(s, k as int);
                assert(name@ =~= s.skip(k as int + 1));
                lemma_segments_of_segment(name@);
            }
            Some(Path { content: name })
        } else if self.content.len() > 0 {
            let name = slice_to_vec(self.content.as_slice());
            proof {
                assert(is_segment(s));
                lemma_segments_of_segment(s);
            }
            Some(Path { content: name })
        } else {
            None
        }
    }

    /// The path without its last segment. The root has no parent.
    pub fn parent(&self) -> (parent: Option<Path>)
        ensures
            match parent {
                Some(p) => self@.len() > 0 && p@ == self@.drop_last(),
                None => self@.len() == 0,
            },
    {
        proof {
            use_type_invariant(self);
            lemma_join_segments_of(self.content@);
        }
        let ghost s = self.content@;
        let index = self.last_separator();
        if let Some(k) = index {
            let before = slice_to_vec(slice_subrange(self.content.as_slice(), 0, k));
            proof {
                Self::lemma_split_at_last(s, k as int);
                assert(before@ =~= s.take(k as int));
            }
            Some(Path { content: before })
        } else if !self.is_empty() {
            proof {
                assert(is_segment(s));
                lemma_segments_of_segment(s);
                assert(seq![s].drop_last() =~= Seq::<Seq<u8>>::empty());
            }
            Some(Path::new())
        } else {
            None
        }
    }

    /// The extension of the last segment, if it has one.
    pub fn extension(&self) -> (extension: Option<Vec<u8>>)
        ensures
            self@.len() == 0 ==> extension is None,
            self@.len() > 0 ==> match extension {
                Some(e) => extension_of(self@.last()) == Some(e@),
                None => extension_of(self@.last()) is None,
            },
    {
        if let Some(filename) = self.filename() {
            proof {
                use_type_invariant(&filename);
                lemma_join_segments_of(filename.content@);
                assert(join(filename@) == filename@[0]);
            }
            let name = filename.bytes();
            let ghost n = name@;
            assert(n == self@.last());
            let mut i: usize = 1;
            while i < name.len()
                invariant
                    1 <= i,
                    n == name@,
                    self@.len() > 0,
                    n == self@.last(),
                    first_dot(n, 1) == first_dot(n, i as int),
                decreases name.len() - i,
            {
                if name[i] == EXTENSION_SEPARATOR {
                    let rest = slice_to_vec(slice_subrange(name, i + 1, name.len()));
                    assert(rest@ =~= n.skip(i as int + 1));
                    return Some(rest);
                }
                i += 1;
            }
            None
        } else {
            None
        }
    }

    /// The pieces between the separators of the path's bytes: its segments,
    /// or one empty piece for the root.
    pub fn segments(&self) -> (segments: Vec<Vec<u8>>)
        ensures
            segments.deep_view() == pieces(self@),
    {
        proof {
            use_type_invariant(self);
            lemma_join_segments_of(self.content@);
        }
        let ghost s = self.content@;
        let len = self.content.len();
        let mut segments: Vec<Vec<u8>> = Vec::new();
        let mut start: usize = 0;
        let mut i: usize = 0;
        proof {
            assert(s.skip(0) =~= s);
            assert(segments.deep_view() + segments_of(s) =~= segments_of(s));
        }
        while i < len
            invariant
                start <= i <= len,
                len == s.len(),
                s == self.content@,
                is_normal(s),
                start < len ==> s[start as int] != PATH_SEPARATOR,
                forall|j: int| start <= j < i ==> s[j] != PATH_SEPARATOR,
                segments.deep_view() + segments_of(s.skip(start as int)) == segments_of(s),
                start == len ==> len == 0,
            decreases len - i,
        {
            if self.content[i] == PATH_SEPARATOR {
                let piece = slice_to_vec(slice_subrange(self.content.as_slice(), start, i));
                proof {
                    let t = s.skip(start as int);
                    let a = t.take(i - start);
                    let c = t.skip(i - start + 1);
                    assert(piece@ =~= a);
                    assert(c =~= s.skip(i as int + 1));
                    assert(s[(i - 1) + 1] == PATH_SEPARATOR);
                    assert(i > start);
                    assert(is_segment(a)) by {
                        assert forall|j: int| 0 <= j < a.len() implies a[j] != PATH_SEPARATOR by {
                            assert(a[j] == s[start + j]);
                        }
                    }
                    assert(t =~= a + seq![PATH_SEPARATOR] + c);
                    lemma_segments_split(a, c);
                    lemma_segments_of_segment(a);
                    assert(i + 1 < len);
                    assert(s[i as int + 1] != PATH_SEPARATOR);
                    assert(segments.deep_view().push(a) + segments_of(c) =~= segments.deep_view()
                        + (seq![a] + segments_of(c)));
                }
                let ghost before = segments;
                segments.push(piece);
                proof {
                    Self::lemma_deep_view_push(before, piece, segments);
                }
                start = i + 1;
            }
            i += 1;
        }
        let ghost before = segments;
        let piece = slice_to_vec(slice_subrange(self.content.as_slice(), start, len));
        proof {
            let t = s.skip(start as int);
            assert(piece@ =~= t);
            if len == 0 {
                assert(before.deep_view() =~= Seq::<Seq<u8>>::empty());
            } else {
                assert(is_segment(t)) by {
                    assert forall|j: int| 0 <= j < t.len() implies t[j] != PATH_SEPARATOR by {
                        assert(t[j] == s[start + j]);
                    }
                }
                lemma_segments_of_segment(t);
            }
        }
        segments.push(piece);
        proof {
            Self::lemma_deep_view_push(before, piece, segments);
            assert(before.deep_view().push(piece@) =~= pieces(self@));
        }
        segments
    }

    /// The deep view of a list of byte strings after one more is pushed.
    proof fn lemma_deep_view_push(before: Vec<Vec<u8>>, piece: Vec<u8>, after: Vec<Vec<u8>>)
        requires
            after@ == before@.push(piece),
        ensures
            after.deep_view() == before.deep_view().push(piece@),
    {
        assert(piece.deep_view() =~= piece@);
        assert forall|k: int| 0 <= k < after@.len() implies after.deep_view()[k]
            == before.deep_view().push(piece@)[k] by {
            if k < before@.len() {
                assert(after@[k] == before@[k]);
            }
        }
        assert(after.deep_view() =~= before.deep_view().push(piece@));
    }

    /// Whether this is the root.
    pub fn is_empty(&self) -> (empty: bool)
        ensures
            empty == (self@.len() == 0),
    {
        proof {
            use_type_invariant(self);
            lemma_join_segments_of(self.content@);
        }
        self.content.len() == 0
    }

    /// The path as bytes: its segments with one separator between
    /// neighbours.
    pub fn bytes(&self) -> (bytes: &[u8])
        ensures
            bytes@ == join(self@),
    {
        proof {
            use_type_invariant(self);
            lemma_join_segments_of(self.content@);
        }
        self.content.as_slice()
    }
}

/// A copy of the bytes.
pub(crate) fn copy_bytes(bytes: &Vec<u8>) -> (copy: Vec<u8>)
    ensures
        copy@ == bytes@,
{
    slice_to_vec(bytes.as_slice())
}

/// The separator as a character, as it stands in the strings that are built.
pub open spec fn slash_if(wanted: bool) -> Seq<char> {
    if wanted {
        seq!['/']
    } else {
        Seq::empty()
    }
}

/// Builds the string for a path: with or without a separator in front, for
/// a path from the root, and behind, for a directory.
pub struct PathStringBuilder {
    path: Path,
    root: bool,
    dir: bool,
}

impl PathStringBuilder {
    /// The path that is written.
    pub closed spec fn path(&self) -> Path {
        self.path
    }

    /// Whether a separator goes in front.
    pub closed spec fn is_root(&self) -> bool {
        self.root
    }

    /// Whether a separator goes behind.
    pub closed spec fn is_dir(&self) -> bool {
        self.dir
    }

    /// A builder for `path` that adds no separator.
    pub fn new(path: Path) -> (builder: PathStringBuilder)
        ensures
            builder.path() == path,
            !builder.is_root(),
            !builder.is_dir(),
    {
        PathStringBuilder { path, root: false, dir: false }
    }

    /// Says whether a separator goes in front.
    pub fn root(&mut self, root: bool) -> (builder: &mut PathStringBuilder)
        ensures
            builder.path() == old(self).path(),
            builder.is_root() == root,
            builder.is_dir() == old(self).is_dir(),
            *final(self) == *final(builder),
    {
        self.root = root;
        self
    }

    /// Says whether a separator goes behind.
    pub fn dir(&mut self, dir: bool) -> (builder: &mut PathStringBuilder)
        ensures
            builder.path() == old(self).path(),
            builder.is_root() == old(self).is_root(),
            builder.is_dir() == dir,
            *final(self) == *final(builder),
    {
        self.dir = dir;
        self
    }

    /// The string with the path as text, lossily where it is not UTF-8.
    pub fn build_lossy(&self) -> (text: String)
        ensures
            text@ == slash_if(self.is_root()) + lossy(join(self.path()@)) + slash_if(
                self.is_dir(),
            ),
    {
        let mut s = String::new();
        if self.root {
            push_char(&mut s, '/');
        }
        let body = self.path.to_string();
        s.append(body.as_str());
        if self.dir {
            push_char(&mut s, '/');
        }
        assert(s@ =~= slash_if(self.is_root()) + lossy(join(self.path()@)) + slash_if(
            self.is_dir(),
        ));
        s
    }

    /// The string with the path in percent-encoding.
    pub fn build_percent_encode(&self) -> (text: String)
        ensures
            text@ == slash_if(self.is_root()) + percent_encoded(join(self.path()@)) + slash_if(
                self.is_dir(),
            ),
    {
        let mut s = String::new();
        if self.root {
            push_char(&mut s, '/');
        }
        let body = self.path.percent_encode();
        s.append(body.as_str());
        if self.dir {
            push_char(&mut s, '/');
        }
        assert(s@ =~= slash_if(self.is_root()) + percent_encoded(join(self.path()@)) + slash_if(
            self.is_dir(),
        ));
        s
    }
}

} // verus!
