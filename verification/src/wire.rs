//! The encodings that the chunk formats are built from: little-endian
//! numbers and length-prefixed UTF-8 strings, as functions on sequences of
//! bytes.

use vstd::prelude::*;
use vstd::utf8::{
    decode_utf8, encode_utf8, encode_utf8_decode_utf8, encode_utf8_valid_utf8, valid_utf8,
};

verus! {

/// The unsigned 16-bit number whose little-endian bytes start at `at`.
pub open spec fn spec_word(s: Seq<u8>, at: int) -> u16 {
    (s[at] + s[at + 1] * 0x100) as u16
}

/// The unsigned 32-bit number whose little-endian bytes start at `at`.
pub open spec fn spec_dword(s: Seq<u8>, at: int) -> u32 {
    (s[at] + s[at + 1] * 0x100 + s[at + 2] * 0x1_0000 + s[at + 3] * 0x100_0000) as u32
}

/// The signed 32-bit number whose little-endian two's complement bytes
/// start at `at`: what the bytes say as an unsigned number if that is below
/// 2^31, and 2^32 less than it otherwise.
pub open spec fn spec_long(s: Seq<u8>, at: int) -> i32 {
    if spec_dword(s, at) < 0x8000_0000 {
        spec_dword(s, at) as i32
    } else {
        (spec_dword(s, at) - 0x1_0000_0000) as i32
    }
}

/// Where the length-prefixed string that starts at `at` ends.
pub open spec fn string_end(s: Seq<u8>, at: int) -> int {
    at + 2 + spec_word(s, at)
}

/// Whether `s` holds all of the length-prefixed string that starts at `at`:
/// its 16-bit length and as many bytes as the length says.
pub open spec fn string_fits(s: Seq<u8>, at: int) -> bool {
    at + 2 <= s.len() && string_end(s, at) <= s.len()
}

/// The bytes of the length-prefixed string that starts at `at`, without the
/// prefix.
pub open spec fn string_bytes(s: Seq<u8>, at: int) -> Seq<u8> {
    s.subrange(at + 2, string_end(s, at))
}

/// The two bytes of an unsigned 16-bit number, little-endian.
pub open spec fn word_bytes(v: u16) -> Seq<u8> {
    seq![(v % 0x100) as u8, (v / 0x100) as u8]
}

/// The four bytes of an unsigned 32-bit number, little-endian.
pub open spec fn dword_bytes(v: u32) -> Seq<u8> {
    seq![
        (v % 0x100) as u8,
        (v / 0x100 % 0x100) as u8,
        (v / 0x1_0000 % 0x100) as u8,
        (v / 0x100_0000) as u8,
    ]
}

/// The four bytes of a signed 32-bit number, little-endian two's
/// complement.
pub open spec fn long_bytes(v: i32) -> Seq<u8> {
    dword_bytes(
        if v >= 0 {
            v as u32
        } else {
            (v + 0x1_0000_0000) as u32
        },
    )
}

/// Whether a text can be written as a length-prefixed string: its UTF-8
/// encoding has a length that 16 bits hold.
pub open spec fn string_encodable(text: Seq<char>) -> bool {
    encode_utf8(text).len() <= 0xffff
}

/// A text as a length-prefixed string: the length of its UTF-8 encoding as
/// a 16-bit number, then the encoding.
pub open spec fn string_encoding(text: Seq<char>) -> Seq<u8> {
    word_bytes(encode_utf8(text).len() as u16) + encode_utf8(text)
}

/// Whether the bytes `part` stand in `s` from `at` on.
pub open spec fn holds_at(s: Seq<u8>, at: int, part: Seq<u8>) -> bool {
    &&& 0 <= at
    &&& at + part.len() <= s.len()
    &&& s.subrange(at, at + part.len()) == part
}

/// Two runs of bytes stand one behind the other exactly if their
/// concatenation stands where the first starts.
pub proof fn lemma_holds_at_concat(s: Seq<u8>, at: int, a: Seq<u8>, b: Seq<u8>)
    ensures
        holds_at(s, at, a + b) <==> holds_at(s, at, a) && holds_at(s, at + a.len(), b),
{
    if holds_at(s, at, a + b) {
        assert(s.subrange(at, at + a.len()) =~= (a + b).subrange(0, a.len() as int));
        assert((a + b).subrange(0, a.len() as int) =~= a);
        assert(s.subrange(at + a.len(), at + a.len() + b.len()) =~= (a + b).subrange(
            a.len() as int,
            (a + b).len() as int,
        ));
        assert((a + b).subrange(a.len() as int, (a + b).len() as int) =~= b);
    }
    if holds_at(s, at, a) && holds_at(s, at + a.len(), b) {
        assert(s.subrange(at, at + (a + b).len()) =~= s.subrange(at, at + a.len()) + s.subrange(
            at + a.len(),
            at + a.len() + b.len(),
        ));
    }
}

/// Reading where a 16-bit number was written gives that number.
pub proof fn lemma_word_at(s: Seq<u8>, at: int, v: u16)
    requires
        holds_at(s, at, word_bytes(v)),
    ensures
        spec_word(s, at) == v,
{
    let part = s.subrange(at, at + 2);
    assert(part[0] == s[at] && part[1] == s[at + 1]);
}

/// Reading where a 32-bit number was written gives that number.
pub proof fn lemma_dword_at(s: Seq<u8>, at: int, v: u32)
    requires
        holds_at(s, at, dword_bytes(v)),
    ensures
        spec_dword(s, at) == v,
{
    let part = s.subrange(at, at + 4);
    assert(part[0] == s[at] && part[1] == s[at + 1] && part[2] == s[at + 2] && part[3] == s[at
        + 3]);
}

/// Reading where a signed 32-bit number was written gives that number.
pub proof fn lemma_long_at(s: Seq<u8>, at: int, v: i32)
    requires
        holds_at(s, at, long_bytes(v)),
    ensures
        spec_long(s, at) == v,
{
    if v >= 0 {
        lemma_dword_at(s, at, v as u32);
    } else {
        lemma_dword_at(s, at, (v + 0x1_0000_0000) as u32);
    }
}

/// Reading where a text was written as a length-prefixed string gives
/// that text, and ends where the writing ended.
pub proof fn lemma_string_at(s: Seq<u8>, at: int, text: Seq<char>)
    requires
        string_encodable(text),
        holds_at(s, at, string_encoding(text)),
    ensures
        string_fits(s, at),
        string_end(s, at) == at + string_encoding(text).len(),
        string_bytes(s, at) == encode_utf8(text),
        valid_utf8(string_bytes(s, at)),
        decode_utf8(string_bytes(s, at)) == text,
{
    let raw = encode_utf8(text);
    let prefix = word_bytes(raw.len() as u16);
    lemma_holds_at_concat(s, at, prefix, raw);
    lemma_word_at(s, at, raw.len() as u16);
    encode_utf8_valid_utf8(text);
    encode_utf8_decode_utf8(text);
}

} // verus!
