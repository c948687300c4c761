//! How a palette is written as a chunk, and the proof that decoding reads
//! back what was written.

use crate::error::AsepriteParseError;
use crate::palette::{
    chunk_count, chunk_entries, chunk_first, chunk_last, chunk_len, entries_error, entry_at,
    entry_end, entry_error, entry_has_name, entry_start, lemma_entries_fit,
    lemma_entries_readable, spec_parse_chunk, ColorPaletteEntryView, FLAG_NAME,
};
use crate::wire::{
    dword_bytes, holds_at, lemma_dword_at, lemma_holds_at_concat, lemma_string_at,
    lemma_word_at, string_bytes, string_encodable, string_encoding, word_bytes,
};
use vstd::prelude::*;
use vstd::utf8::decode_utf8_encode_utf8;

verus! {

/// The bytes of a palette entry: the flags, which say whether a name
/// follows, the four channels, and the name if the entry has one.
pub open spec fn entry_bytes(entry: ColorPaletteEntryView) -> Seq<u8> {
    word_bytes(
        if entry.name is Some {
            FLAG_NAME
        } else {
            0u16
        },
    ) + seq![entry.red, entry.green, entry.blue, entry.alpha] + (match entry.name {
        Some(name) => string_encoding(name),
        None => Seq::empty(),
    })
}

/// The bytes of the entries under the `n` indices from `first` on, in the
/// order of the indices.
pub open spec fn entries_bytes(
    entries: Map<u32, ColorPaletteEntryView>,
    first: u32,
    n: nat,
) -> Seq<u8>
    decreases n,
{
    if n == 0 {
        Seq::empty()
    } else {
        entries_bytes(entries, first, (n - 1) as nat) + entry_bytes(
            entries[(first + n - 1) as u32],
        )
    }
}

/// Whether entries can be written as the chunk of the indices from `first`
/// to `last`: there is one entry for each index of that range and no
/// other, each entry knows its index, and the length of each name fits
/// its field.
pub open spec fn encodable(
    first: u32,
    last: u32,
    entries: Map<u32, ColorPaletteEntryView>,
) -> bool {
    &&& first <= last
    &&& forall|id: u32| #[trigger] entries.contains_key(id) <==> first <= id <= last
    &&& forall|id: u32| #[trigger]
        entries.contains_key(id) ==> {
            &&& entries[id].id == id
            &&& entries[id].name matches Some(name) ==> string_encodable(name)
        }
}

/// A palette as a chunk: the number of entries as far as 32 bits hold it,
/// the first and the last index, eight reserved bytes of zero, and the
/// entries.
pub open spec fn spec_encode_chunk(
    first: u32,
    last: u32,
    entries: Map<u32, ColorPaletteEntryView>,
) -> Seq<u8> {
    dword_bytes((last - first + 1) as u32) + dword_bytes(first) + dword_bytes(last) + Seq::new(
        8,
        |i: int| 0u8,
    ) + entries_bytes(entries, first, (last - first + 1) as nat)
}

/// Reading where an entry was written gives that entry, and ends where
/// the writing ended.
pub proof fn lemma_entry_at(s: Seq<u8>, at: int, entry: ColorPaletteEntryView)
    requires
        holds_at(s, at, entry_bytes(entry)),
        entry.name matches Some(name) ==> string_encodable(name),
    ensures
        entry_error(s, at) is None,
        entry_end(s, at) == at + entry_bytes(entry).len(),
        entry_at(s, at, entry.id) == entry,
{
    let flags: u16 = if entry.name is Some {
        FLAG_NAME
    } else {
        0u16
    };
    let channels = seq![entry.red, entry.green, entry.blue, entry.alpha];
    let name = match entry.name {
        Some(name) => string_encoding(name),
        None => Seq::empty(),
    };
    lemma_holds_at_concat(s, at, word_bytes(flags) + channels, name);
    lemma_holds_at_concat(s, at, word_bytes(flags), channels);
    lemma_word_at(s, at, flags);
    assert(1u16 & 1u16 == 1 && 0u16 & 1u16 != 1) by (bit_vector);
    let part = s.subrange(at + 2, at + 6);
    assert(part[0] == s[at + 2] && part[1] == s[at + 3] && part[2] == s[at + 4] && part[3]
        == s[at + 5]);
    match entry.name {
        Some(text) => {
            lemma_string_at(s, at + 6, text);
        },
        None => {},
    }
}

/// Where entries were written one after the other behind the header, all
/// of them can be read, each stands where the one before it ends, and
/// reading gives back each of them.
pub proof fn lemma_entries_at(
    s: Seq<u8>,
    entries: Map<u32, ColorPaletteEntryView>,
    first: u32,
    n: nat,
)
    requires
        holds_at(s, 20, entries_bytes(entries, first, n)),
        first + n <= 0x1_0000_0000,
        forall|i: nat|
            i < n ==> {
                &&& (#[trigger] entries[(first + i) as u32]).id == first + i
                &&& entries[(first + i) as u32].name matches Some(name) ==> string_encodable(name)
            },
    ensures
        entries_error(s, n) is None,
        entry_start(s, n) == 20 + entries_bytes(entries, first, n).len(),
        forall|i: nat|
            i < n ==> entry_at(s, entry_start(s, i), (first + i) as u32) == #[trigger] entries[(
            first + i) as u32],
    decreases n,
{
    if n > 0 {
        let m = (n - 1) as nat;
        let last = entries[(first + m) as u32];
        lemma_holds_at_concat(s, 20, entries_bytes(entries, first, m), entry_bytes(last));
        lemma_entries_at(s, entries, first, m);
        lemma_entry_at(s, entry_start(s, m), last);
    }
}

/// Decoding the chunk that a palette was written as gives that palette,
/// and takes all of the chunk.
pub proof fn lemma_parse_encoded(first: u32, last: u32, entries: Map<u32, ColorPaletteEntryView>)
    requires
        encodable(first, last, entries),
    ensures
        spec_parse_chunk(spec_encode_chunk(first, last, entries)) == Ok::<
            Map<u32, ColorPaletteEntryView>,
            AsepriteParseError,
        >(entries),
        chunk_first(spec_encode_chunk(first, last, entries)) == first,
        chunk_last(spec_encode_chunk(first, last, entries)) == last,
        chunk_len(spec_encode_chunk(first, last, entries)) == spec_encode_chunk(
            first,
            last,
            entries,
        ).len(),
{
    let s = spec_encode_chunk(first, last, entries);
    let count = (last - first + 1) as nat;
    let total = dword_bytes((last - first + 1) as u32);
    let reserved = Seq::new(8, |i: int| 0u8);
    let body = entries_bytes(entries, first, count);
    assert(s.subrange(0, s.len() as int) =~= s);
    assert(holds_at(s, 0, total + dword_bytes(first) + dword_bytes(last) + reserved + body));
    lemma_holds_at_concat(s, 0, total + dword_bytes(first) + dword_bytes(last) + reserved, body);
    lemma_holds_at_concat(s, 0, total + dword_bytes(first) + dword_bytes(last), reserved);
    lemma_holds_at_concat(s, 0, total + dword_bytes(first), dword_bytes(last));
    lemma_holds_at_concat(s, 0, total, dword_bytes(first));
    lemma_dword_at(s, 4, first);
    lemma_dword_at(s, 8, last);
    assert forall|i: nat| i < count implies {
        &&& (#[trigger] entries[(first + i) as u32]).id == first + i
        &&& entries[(first + i) as u32].name matches Some(name) ==> string_encodable(name)
    } by {
        assert(entries.contains_key((first + i) as u32));
    }
    lemma_entries_at(s, entries, first, count);
    assert forall|id: u32| first <= id <= last implies #[trigger] chunk_entries(s)[id]
        == entries[id] by {
        let i = (id - first) as nat;
        assert(entries[(first + i) as u32] == entries[id]);
    }
    assert(chunk_entries(s) =~= entries);
}

/// Whatever decoding gives can be written as a chunk again.
pub proof fn lemma_parsed_is_encodable(s: Seq<u8>)
    requires
        spec_parse_chunk(s) is Ok,
    ensures
        encodable(chunk_first(s), chunk_last(s), spec_parse_chunk(s)->Ok_0),
{
    let first = chunk_first(s);
    let entries = chunk_entries(s);
    assert forall|id: u32| #[trigger] entries.contains_key(id) implies {
        &&& entries[id].id == id
        &&& entries[id].name matches Some(name) ==> string_encodable(name)
    } by {
        let i = (id - first) as nat;
        let at = entry_start(s, i);
        lemma_entries_readable(s, chunk_count(s) as nat, i);
        lemma_entries_fit(s, i);
        if entry_has_name(s, at) {
            decode_utf8_encode_utf8(string_bytes(s, at + 6));
        }
    }
}

/// Writing what a chunk decodes to and decoding that again gives the same
/// palette: indices, channels and names are kept.
pub proof fn lemma_round_trip(s: Seq<u8>)
    requires
        spec_parse_chunk(s) is Ok,
    ensures
        spec_parse_chunk(
            spec_encode_chunk(chunk_first(s), chunk_last(s), spec_parse_chunk(s)->Ok_0),
        ) == spec_parse_chunk(s),
{
    lemma_parsed_is_encodable(s);
    lemma_parse_encoded(chunk_first(s), chunk_last(s), spec_parse_chunk(s)->Ok_0);
}

} // verus!
