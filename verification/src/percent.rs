//! Percent-encoding of path bytes for links and URLs.
//!
//! The encoding and the decoding are stated here as specifications. Single
//! bytes are escaped and whole inputs decoded by the `percent-encoding`
//! crate; the functions that call it are trusted to meet what is stated.

use crate::text::push_char;
use vstd::prelude::*;

verus! {

/// The byte `%`, which opens an escape.
pub const PERCENT: u8 = 0x25;

/// The bytes that the crate's default encode set escapes: controls, all
/// bytes above `~`, and space, `"`, `#`, `<`, `>`, `` ` ``, `?`, `{`, `}`.
pub open spec fn in_default_set(b: u8) -> bool {
    ||| b < 0x20
    ||| b > 0x7e
    ||| b == 0x20
    ||| b == 0x22
    ||| b == 0x23
    ||| b == 0x3c
    ||| b == 0x3e
    ||| b == 0x60
    ||| b == 0x3f
    ||| b == 0x7b
    ||| b == 0x7d
}

/// The bytes that are escaped in a path: the default set and `%` itself.
pub open spec fn is_escaped(b: u8) -> bool {
    b == PERCENT || in_default_set(b)
}

/// The upper-case hexadecimal digit for a value below 16.
pub open spec fn hex_digit(n: u8) -> char {
    if n < 10 {
        (0x30 + n) as u8 as char
    } else {
        (0x37 + n) as u8 as char
    }
}

/// The value of a hexadecimal digit of either case, if the byte is one.
pub open spec fn hex_value(b: u8) -> Option<u8> {
    if 0x30 <= b <= 0x39 {
        Some((b - 0x30) as u8)
    } else if 0x41 <= b <= 0x46 {
        Some((b - 0x37) as u8)
    } else if 0x61 <= b <= 0x66 {
        Some((b - 0x57) as u8)
    } else {
        None
    }
}

/// The escape of a byte: `%` and its two upper-case hexadecimal digits.
pub open spec fn escape(b: u8) -> Seq<char> {
    seq!['%', hex_digit(b / 16), hex_digit(b % 16)]
}

/// What one byte becomes in the encoding.
pub open spec fn encoded_byte(b: u8) -> Seq<char> {
    if is_escaped(b) {
        escape(b)
    } else {
        seq![b as char]
    }
}

/// The percent-encoding of `bytes`: each escaped byte as its escape, every
/// other byte as the character it is.
pub open spec fn percent_encoded(bytes: Seq<u8>) -> Seq<char>
    decreases bytes.len(),
{
    if bytes.len() == 0 {
        Seq::empty()
    } else {
        encoded_byte(bytes[0]) + percent_encoded(bytes.skip(1))
    }
}

/// Whether `s` opens with a complete escape.
pub open spec fn opens_with_escape(s: Seq<u8>) -> bool {
    &&& s.len() >= 3
    &&& s[0] == PERCENT
    &&& hex_value(s[1]) is Some
    &&& hex_value(s[2]) is Some
}

/// The percent-decoding of `s`: each complete escape as the byte it names,
/// every other byte, a stray `%` too, as itself.
pub open spec fn percent_decoded(s: Seq<u8>) -> Seq<u8>
    decreases s.len(),
{
    if s.len() == 0 {
        Seq::empty()
    } else if opens_with_escape(s) {
        seq![(hex_value(s[1])->0 * 16 + hex_value(s[2])->0) as u8] + percent_decoded(s.skip(3))
    } else {
        seq![s[0]] + percent_decoded(s.skip(1))
    }
}

/// The bytes of a text of one-byte characters.
pub open spec fn as_bytes(text: Seq<char>) -> Seq<u8> {
    Seq::new(text.len(), |i: int| text[i] as u8)
}

/// The `percent-encoding` crate's `EncodeSet::contains` on its
/// `DEFAULT_ENCODE_SET`: trusted to answer as `in_default_set` says, which
/// lists the bytes that the crate documents for that set.
#[verifier::external_body]
fn default_set_contains(byte: u8) -> (escaped: bool)
    ensures
        escaped == in_default_set(byte),
{
    percent_encoding::EncodeSet::contains(&percent_encoding::DEFAULT_ENCODE_SET, byte)
}

/// The `percent-encoding` crate's `percent_encode_byte`: trusted to return
/// `%` followed by the byte's two upper-case hexadecimal digits.
#[verifier::external_body]
fn escape_byte(byte: u8) -> (escape: &'static str)
    ensures
        escape@ == self::escape(byte),
{
    percent_encoding::percent_encode_byte(byte)
}

/// The `percent-encoding` crate's `percent_decode`, collected: trusted to
/// replace each `%` that two hexadecimal digits follow by the byte they
/// name and to leave every other byte as it is.
#[verifier::external_body]
pub(crate) fn decode_bytes(input: &[u8]) -> (decoded: Vec<u8>)
    ensures
        decoded@ == percent_decoded(input@),
{
    percent_encoding::percent_decode(input).collect()
}

/// Encoding a sequence with one more byte appends what that byte becomes.
pub proof fn lemma_percent_encoded_push(bytes: Seq<u8>, b: u8)
    ensures
        percent_encoded(bytes.push(b)) == percent_encoded(bytes) + encoded_byte(b),
    decreases bytes.len(),
{
    let all = bytes.push(b);
    if bytes.len() == 0 {
        assert(all.skip(1) =~= Seq::<u8>::empty());
        assert(all[0] == b);
        assert(percent_encoded(all.skip(1)) =~= Seq::<char>::empty());
        assert(percent_encoded(all) =~= encoded_byte(b));
        assert(percent_encoded(bytes) + encoded_byte(b) =~= encoded_byte(b));
    } else {
        assert(all.skip(1) =~= bytes.skip(1).push(b));
        lemma_percent_encoded_push(bytes.skip(1), b);
        assert(percent_encoded(all) =~= percent_encoded(bytes) + encoded_byte(b));
    }
}

/// The percent-encoding of `bytes`.
pub fn percent_encode(bytes: &[u8]) -> (text: String)
    ensures
        text@ == percent_encoded(bytes@),
{
    let mut text = String::new();
    let mut i: usize = 0;
    while i < bytes.len()
        invariant
            i <= bytes.len(),
            text@ == percent_encoded(bytes@.take(i as int)),
        decreases bytes.len() - i,
    {
        let b = bytes[i];
        proof {
            lemma_percent_encoded_push(bytes@.take(i as int), b);
            assert(bytes@.take(i as int + 1) =~= bytes@.take(i as int).push(b));
        }
        if b == PERCENT || default_set_contains(b) {
            text.append(escape_byte(b));
        } else {
            push_char(&mut text, b as char);
            assert(encoded_byte(b) =~= seq![b as char]);
            assert(percent_encoded(bytes@.take(i as int)).push(b as char) =~= percent_encoded(
                bytes@.take(i as int),
            ) + seq![b as char]);
        }
        i += 1;
    }
    assert(bytes@.take(i as int) =~= bytes@);
    text
}

/// A hexadecimal digit is read back as the value it was written for.
proof fn lemma_hex_digit_value(n: u8)
    requires
        n < 16,
    ensures
        hex_value(hex_digit(n) as u8) == Some(n),
{
}

/// Decoding undoes encoding: because `%` itself is escaped, every byte
/// string is read back from its encoding unchanged.
pub proof fn law_decoding_undoes_encoding(bytes: Seq<u8>)
    ensures
        percent_decoded(as_bytes(percent_encoded(bytes))) == bytes,
    decreases bytes.len(),
{
    if bytes.len() > 0 {
        let b = bytes[0];
        let rest = bytes.skip(1);
        law_decoding_undoes_encoding(rest);
        let text = as_bytes(percent_encoded(bytes));
        let tail = as_bytes(percent_encoded(rest));
        if is_escaped(b) {
            lemma_hex_digit_value(b / 16);
            lemma_hex_digit_value(b % 16);
            assert(text.len() == tail.len() + 3);
            assert(text[0] == PERCENT);
            assert(text[1] == hex_digit(b / 16) as u8);
            assert(text[2] == hex_digit(b % 16) as u8);
            assert(text.skip(3) =~= tail);
            assert(opens_with_escape(text));
            assert((b / 16) * 16 + b % 16 == b);
            assert(percent_decoded(text) =~= seq![b] + rest);
        } else {
            assert(text.len() == tail.len() + 1);
            assert(text[0] == (b as char) as u8);
            assert(text[0] == b);
            assert(text.skip(1) =~= tail);
            assert(!opens_with_escape(text));
            assert(percent_decoded(text) =~= seq![b] + rest);
        }
        assert(seq![b] + rest =~= bytes);
    } else {
        assert(as_bytes(percent_encoded(bytes)) =~= Seq::<u8>::empty());
    }
}

} // verus!
