//! Byte strings and the segment lists they stand for.
//!
//! A path is written as bytes with `/` between its segments. This module
//! defines, as specifications, how such bytes are read as a list of segments
//! (`segments_of`), how a list of segments is written back (`join`), and
//! proves the facts that relate the two.

use vstd::prelude::*;

verus! {

/// The byte that separates the segments of a path: `/`.
pub const PATH_SEPARATOR: u8 = 0x2f;

/// The byte that separates a file name from its extension: `.`.
pub const EXTENSION_SEPARATOR: u8 = 0x2e;

/// A segment is a non-empty run of bytes without a separator.
pub open spec fn is_segment(s: Seq<u8>) -> bool {
    &&& s.len() > 0
    &&& forall|i: int| 0 <= i < s.len() ==> s[i] != PATH_SEPARATOR
}

/// Every element of `segs` is a segment.
pub open spec fn all_segments(segs: Seq<Seq<u8>>) -> bool {
    forall|k: int| 0 <= k < segs.len() ==> is_segment(#[trigger] segs[k])
}

/// Bytes in normal form: no separator at either end and no two in a row.
pub open spec fn is_normal(s: Seq<u8>) -> bool {
    &&& s.len() > 0 ==> s[0] != PATH_SEPARATOR && s[s.len() - 1] != PATH_SEPARATOR
    &&& forall|i: int|
        0 <= i < s.len() - 1 ==> !(s[i] == PATH_SEPARATOR && #[trigger] s[i + 1] == PATH_SEPARATOR)
}

/// The index of the first separator in `s`, or `s.len()` if it has none.
pub open spec fn first_separator(s: Seq<u8>) -> int
    decreases s.len(),
{
    if s.len() == 0 || s[0] == PATH_SEPARATOR {
        0
    } else {
        1 + first_separator(s.skip(1))
    }
}

/// The segments written in `s`: the maximal non-empty runs of bytes between
/// separators, in order. Leading, trailing and repeated separators count for
/// nothing.
pub open spec fn segments_of(s: Seq<u8>) -> Seq<Seq<u8>>
    decreases s.len(),
{
    let i = first_separator(s);
    if s.len() == 0 {
        Seq::empty()
    } else if i <= 0 {
        segments_of(s.skip(1))
    } else if i >= s.len() {
        seq![s]
    } else {
        seq![s.take(i)] + segments_of(s.skip(i + 1))
    }
}

/// The segments written out with one separator between neighbours.
pub open spec fn join(segs: Seq<Seq<u8>>) -> Seq<u8>
    decreases segs.len(),
{
    if segs.len() == 0 {
        Seq::empty()
    } else if segs.len() == 1 {
        segs[0]
    } else {
        segs[0] + seq![PATH_SEPARATOR] + join(segs.skip(1))
    }
}

/// `first_separator` stays within the sequence, no byte before it is a
/// separator, and the byte at it is one unless it is the length.
pub proof fn lemma_first_separator(s: Seq<u8>)
    ensures
        0 <= first_separator(s) <= s.len(),
        forall|j: int| 0 <= j < first_separator(s) ==> s[j] != PATH_SEPARATOR,
        first_separator(s) < s.len() ==> s[first_separator(s)] == PATH_SEPARATOR,
    decreases s.len(),
{
    if s.len() == 0 || s[0] == PATH_SEPARATOR {
    } else {
        lemma_first_separator(s.skip(1));
        assert forall|j: int| 0 <= j < first_separator(s) implies s[j] != PATH_SEPARATOR by {
            if j > 0 {
                assert(s[j] == s.skip(1)[j - 1]);
            }
        }
        assert(first_separator(s) < s.len() ==> s[first_separator(s)] == s.skip(1)[
            first_separator(s) - 1]);
    }
}

/// An index with no separator before it that is the length or holds a
/// separator is the first separator.
pub proof fn lemma_first_separator_is(s: Seq<u8>, i: int)
    requires
        0 <= i <= s.len(),
        forall|j: int| 0 <= j < i ==> s[j] != PATH_SEPARATOR,
        i < s.len() ==> s[i] == PATH_SEPARATOR,
    ensures
        first_separator(s) == i,
    decreases s.len(),
{
    if s.len() == 0 || s[0] == PATH_SEPARATOR {
        if i > 0 {
            assert(s[0] != PATH_SEPARATOR);
        }
    } else {
        assert(i > 0);
        let t = s.skip(1);
        assert forall|j: int| 0 <= j < i - 1 implies t[j] != PATH_SEPARATOR by {
            assert(t[j] == s[j + 1]);
        }
        if i < s.len() {
            assert(t[i - 1] == s[i]);
        }
        lemma_first_separator_is(t, i - 1);
    }
}

/// A segment is read back as itself alone.
pub proof fn lemma_segments_of_segment(s: Seq<u8>)
    requires
        is_segment(s),
    ensures
        segments_of(s) == seq![s],
{
    lemma_first_separator_is(s, s.len() as int);
}

/// A separator splits the reading: the segments of `a / c` are those of `a`
/// followed by those of `c`.
pub proof fn lemma_segments_split(a: Seq<u8>, c: Seq<u8>)
    ensures
        segments_of(a + seq![PATH_SEPARATOR] + c) == segments_of(a) + segments_of(c),
    decreases a.len(),
{
    let s = a + seq![PATH_SEPARATOR] + c;
    if a.len() == 0 {
        assert(s.skip(1) =~= c);
        assert(segments_of(a) + segments_of(c) =~= segments_of(c));
    } else if a[0] == PATH_SEPARATOR {
        assert(s[0] == a[0]);
        assert(s.skip(1) =~= a.skip(1) + seq![PATH_SEPARATOR] + c);
        lemma_segments_split(a.skip(1), c);
    } else {
        lemma_first_separator(a);
        let i = first_separator(a);
        assert(i > 0);
        assert forall|j: int| 0 <= j < i implies s[j] != PATH_SEPARATOR by {
            assert(s[j] == a[j]);
        }
        if i < a.len() {
            assert(s[i] == a[i]);
        } else {
            assert(s[i] == PATH_SEPARATOR);
        }
        lemma_first_separator_is(s, i);
        assert(s.take(i) =~= a.take(i));
        if i < a.len() {
            assert(s.skip(i + 1) =~= a.skip(i + 1) + seq![PATH_SEPARATOR] + c);
            lemma_segments_split(a.skip(i + 1), c);
            assert(segments_of(s) =~= segments_of(a) + segments_of(c));
        } else {
            assert(s.skip(i + 1) =~= c);
            assert(a.take(i) =~= a);
            assert(segments_of(a) =~= seq![a]);
        }
    }
}

/// Whatever is read from bytes is a list of segments.
pub proof fn lemma_segments_are_segments(s: Seq<u8>)
    ensures
        all_segments(segments_of(s)),
    decreases s.len(),
{
    let i = first_separator(s);
    lemma_first_separator(s);
    if s.len() == 0 {
    } else if i == 0 {
        lemma_segments_are_segments(s.skip(1));
    } else if i >= s.len() {
        assert(is_segment(s));
    } else {
        lemma_segments_are_segments(s.skip(i + 1));
        let rest = segments_of(s.skip(i + 1));
        assert(is_segment(s.take(i)));
        assert forall|k: int| 0 <= k < segments_of(s).len() implies is_segment(
            #[trigger] segments_of(s)[k],
        ) by {
            if k > 0 {
                assert(segments_of(s)[k] == rest[k - 1]);
            }
        }
    }
}

/// Bytes in normal form are exactly their segments joined, and hold a
/// segment unless they are empty.
pub proof fn lemma_join_segments_of(s: Seq<u8>)
    requires
        is_normal(s),
    ensures
        join(segments_of(s)) == s,
        (segments_of(s).len() == 0) == (s.len() == 0),
    decreases s.len(),
{
    if s.len() > 0 {
        lemma_first_separator(s);
        let i = first_separator(s);
        assert(i > 0);
        if i < s.len() {
            let rest = s.skip(i + 1);
            assert(i + 1 < s.len());
            assert(is_normal(rest)) by {
                assert(s[i + 1] != PATH_SEPARATOR);
                assert(rest[0] == s[i + 1]);
                assert(rest[rest.len() - 1] == s[s.len() - 1]);
                assert forall|j: int| 0 <= j < rest.len() - 1 implies !(rest[j] == PATH_SEPARATOR
                    && #[trigger] rest[j + 1] == PATH_SEPARATOR) by {
                    assert(rest[j] == s[i + 1 + j]);
                    assert(rest[j + 1] == s[(i + 1 + j) + 1]);
                }
            }
            lemma_join_segments_of(rest);
            let segs = segments_of(s);
            assert(segs.skip(1) =~= segments_of(rest));
            assert(segs[0] == s.take(i));
            assert(join(segs) == s.take(i) + seq![PATH_SEPARATOR] + rest);
            assert(s.take(i) + seq![PATH_SEPARATOR] + rest =~= s);
        }
    }
}

/// A list of segments joined is in normal form and is read back as the
/// same list.
pub proof fn lemma_segments_of_join(segs: Seq<Seq<u8>>)
    requires
        all_segments(segs),
    ensures
        is_normal(join(segs)),
        segments_of(join(segs)) == segs,
        (join(segs).len() == 0) == (segs.len() == 0),
    decreases segs.len(),
{
    if segs.len() == 0 {
    } else if segs.len() == 1 {
        assert(is_segment(segs[0]));
        lemma_segments_of_segment(segs[0]);
        assert(seq![segs[0]] =~= segs);
    } else {
        let head = segs[0];
        let tail = segs.skip(1);
        assert(is_segment(head));
        assert forall|k: int| 0 <= k < tail.len() implies is_segment(#[trigger] tail[k]) by {
            assert(tail[k] == segs[k + 1]);
        }
        lemma_segments_of_join(tail);
        let rest = join(tail);
        let s = head + seq![PATH_SEPARATOR] + rest;
        lemma_segments_split(head, rest);
        lemma_segments_of_segment(head);
        assert(seq![head] + tail =~= segs);
        assert(is_normal(s)) by {
            assert(s[0] == head[0]);
            assert(s[s.len() - 1] == rest[rest.len() - 1]);
            assert forall|j: int| 0 <= j < s.len() - 1 implies !(s[j] == PATH_SEPARATOR
                && #[trigger] s[j + 1] == PATH_SEPARATOR) by {
                if j + 1 < head.len() {
                    assert(s[j] == head[j]);
                } else if j + 1 == head.len() {
                    assert(s[j] == head[j]);
                } else if j == head.len() {
                    assert(s[j + 1] == rest[0]);
                } else {
                    assert(s[j] == rest[j - head.len() - 1]);
                    assert(s[j + 1] == rest[(j - head.len() - 1) + 1]);
                }
            }
        }
    }
}

} // verus!
