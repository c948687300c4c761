//! Color palette chunks: the colors that indexed pixels refer to.
//!
//! A palette maps color indices to entries. A chunk names a range of
//! indices and holds one entry for each of them, so a decoded palette has
//! no gaps inside its range, but the range need not start at zero.

use crate::error::AsepriteParseError;
use crate::int_map::{int_map_get, int_map_insert, int_map_len};
use crate::pixel::Indexed;
use crate::reader::AseReader;
use crate::wire::{spec_dword, spec_word, string_bytes, string_end, string_fits};
use nohash::IntMap;
use vstd::prelude::*;
use vstd::utf8::{decode_utf8, valid_utf8};

verus! {

/// The bit of an entry's flags that says that the entry has a name.
pub const FLAG_NAME: u16 = 1;

/// The color palette embedded in the file.
#[derive(Debug)]
pub struct ColorPalette {
    entries: IntMap<u32, ColorPaletteEntry>,
}

/// A single entry in a [`ColorPalette`].
#[derive(Debug)]
pub struct ColorPaletteEntry {
    id: u32,
    rgba8: [u8; 4],
    name: Option<String>,
}

/// What a [`ColorPaletteEntry`] holds, as mathematical values.
pub struct ColorPaletteEntryView {
    pub id: u32,
    pub red: u8,
    pub green: u8,
    pub blue: u8,
    pub alpha: u8,
    pub name: Option<Seq<char>>,
}

impl View for ColorPaletteEntry {
    type V = ColorPaletteEntryView;

    closed spec fn view(&self) -> ColorPaletteEntryView {
        ColorPaletteEntryView {
            id: self.id,
            red: self.rgba8[0],
            green: self.rgba8[1],
            blue: self.rgba8[2],
            alpha: self.rgba8[3],
            name: match self.name {
                Some(n) => Some(n@),
                None => None,
            },
        }
    }
}

impl View for ColorPalette {
    type V = Map<u32, ColorPaletteEntryView>;

    /// The entries of the palette, by index.
    closed spec fn view(&self) -> Map<u32, ColorPaletteEntryView> {
        Map::new(|id: u32| self.entries@.contains_key(id), |id: u32| self.entries@[id]@)
    }
}

/// The first color index of a palette chunk.
pub open spec fn chunk_first(s: Seq<u8>) -> u32 {
    spec_dword(s, 4)
}

/// The last color index of a palette chunk.
pub open spec fn chunk_last(s: Seq<u8>) -> u32 {
    spec_dword(s, 8)
}

/// The number of entries of a palette chunk whose last index is not before
/// its first.
pub open spec fn chunk_count(s: Seq<u8>) -> int {
    chunk_last(s) - chunk_first(s) + 1
}

/// Whether the entry that starts at `at` has a name.
pub open spec fn entry_has_name(s: Seq<u8>, at: int) -> bool {
    spec_word(s, at) & FLAG_NAME == 1
}

/// Where the entry that starts at `at` ends: behind the flags and the four
/// channels, and behind the name if it has one.
pub open spec fn entry_end(s: Seq<u8>, at: int) -> int {
    if entry_has_name(s, at) {
        string_end(s, at + 6)
    } else {
        at + 6
    }
}

/// Why the entry that starts at `at` cannot be read, if it cannot.
pub open spec fn entry_error(s: Seq<u8>, at: int) -> Option<AsepriteParseError> {
    if s.len() < at + 6 {
        Some(AsepriteParseError::UnexpectedEof)
    } else if !entry_has_name(s, at) {
        None
    } else if !string_fits(s, at + 6) {
        Some(AsepriteParseError::UnexpectedEof)
    } else if !valid_utf8(string_bytes(s, at + 6)) {
        Some(AsepriteParseError::InvalidUtf8)
    } else {
        None
    }
}

/// The entry that starts at `at`, under the index `id`.
pub open spec fn entry_at(s: Seq<u8>, at: int, id: u32) -> ColorPaletteEntryView {
    ColorPaletteEntryView {
        id,
        red: s[at + 2],
        green: s[at + 3],
        blue: s[at + 4],
        alpha: s[at + 5],
        name: if entry_has_name(s, at) {
            Some(decode_utf8(string_bytes(s, at + 6)))
        } else {
            None
        },
    }
}

/// Where entry number `i` of a palette chunk starts. The first starts
/// behind the 20 bytes of the header, each other one where the one before
/// it ends.
pub open spec fn entry_start(s: Seq<u8>, i: nat) -> int
    decreases i,
{
    if i == 0 {
        20
    } else {
        entry_end(s, entry_start(s, (i - 1) as nat))
    }
}

/// The error of the first among the first `n` entries of a palette chunk
/// that cannot be read, if there is one.
pub open spec fn entries_error(s: Seq<u8>, n: nat) -> Option<AsepriteParseError>
    decreases n,
{
    if n == 0 {
        None
    } else {
        match entries_error(s, (n - 1) as nat) {
            Some(e) => Some(e),
            None => entry_error(s, entry_start(s, (n - 1) as nat)),
        }
    }
}

/// The entries of a palette chunk: one for each index from the first to
/// the last, in the order of the file.
pub open spec fn chunk_entries(s: Seq<u8>) -> Map<u32, ColorPaletteEntryView> {
    Map::new(
        |id: u32| chunk_first(s) <= id <= chunk_last(s),
        |id: u32| entry_at(s, entry_start(s, (id - chunk_first(s)) as nat), id),
    )
}

/// The number of bytes that a palette chunk takes: header and entries.
pub open spec fn chunk_len(s: Seq<u8>) -> int {
    entry_start(s, chunk_count(s) as nat)
}

/// What decoding the palette chunk `s` gives. The range of indices is
/// checked as soon as the header is read, before any entry.
pub open spec fn spec_parse_chunk(s: Seq<u8>) -> Result<
    Map<u32, ColorPaletteEntryView>,
    AsepriteParseError,
> {
    if s.len() < 20 {
        Err(AsepriteParseError::UnexpectedEof)
    } else if chunk_last(s) < chunk_first(s) {
        Err(AsepriteParseError::InvalidPaletteRange { first: chunk_first(s), last: chunk_last(s) })
    } else {
        match entries_error(s, chunk_count(s) as nat) {
            Some(e) => Err(e),
            None => Ok(chunk_entries(s)),
        }
    }
}

/// An error among the first entries is the error of every longer run of
/// entries.
pub proof fn lemma_entries_error_stays(s: Seq<u8>, i: nat, n: nat)
    requires
        i <= n,
        entries_error(s, i) is Some,
    ensures
        entries_error(s, n) == entries_error(s, i),
    decreases n,
{
    if i < n {
        lemma_entries_error_stays(s, i, (n - 1) as nat);
    }
}

/// Among entries that can all be read, each one can be read.
pub proof fn lemma_entries_readable(s: Seq<u8>, n: nat, i: nat)
    requires
        i < n,
        entries_error(s, n) is None,
    ensures
        entries_error(s, i) is None,
        entry_error(s, entry_start(s, i)) is None,
    decreases n,
{
    if i + 1 < n {
        lemma_entries_readable(s, (n - 1) as nat, i);
    }
}

/// Entries that can all be read end inside the buffer.
pub proof fn lemma_entries_fit(s: Seq<u8>, n: nat)
    requires
        20 <= s.len(),
        entries_error(s, n) is None,
    ensures
        20 + 6 * n <= entry_start(s, n) <= s.len(),
    decreases n,
{
    if n > 0 {
        lemma_entries_fit(s, (n - 1) as nat);
    }
}

/// The indices from `first` on, `n` of them, are `n` indices.
proof fn lemma_index_range_len(first: u32, n: nat)
    requires
        first + n <= 0x1_0000_0000,
    ensures
        Set::new(|id: u32| first <= id < first + n).finite(),
        Set::new(|id: u32| first <= id < first + n).len() == n,
    decreases n,
{
    let range = Set::new(|id: u32| first <= id < first + n);
    if n == 0 {
        assert(range =~= Set::<u32>::empty());
    } else {
        lemma_index_range_len(first, (n - 1) as nat);
        let front = Set::new(|id: u32| first <= id < first + (n - 1));
        assert(range =~= front.insert((first + n - 1) as u32));
    }
}

/// A palette chunk that decodes gives one entry for each index from its
/// first to its last, and no other: as many entries as the range has
/// indices, each under its own index.
pub proof fn lemma_parsed_entries(s: Seq<u8>)
    requires
        spec_parse_chunk(s) is Ok,
    ensures
        spec_parse_chunk(s)->Ok_0.dom().finite(),
        spec_parse_chunk(s)->Ok_0.len() == chunk_last(s) - chunk_first(s) + 1,
        forall|id: u32| #[trigger]
            spec_parse_chunk(s)->Ok_0.contains_key(id) <==> chunk_first(s) <= id <= chunk_last(s),
        forall|id: u32| #[trigger]
            spec_parse_chunk(s)->Ok_0.contains_key(id) ==> spec_parse_chunk(s)->Ok_0[id].id == id,
        chunk_len(s) <= s.len(),
{
    let first = chunk_first(s);
    let count = chunk_count(s) as nat;
    lemma_index_range_len(first, count);
    assert(chunk_entries(s).dom() =~= Set::new(|id: u32| first <= id < first + count));
    lemma_entries_fit(s, count);
}

/// Cutting a buffer short behind its header keeps the entries that still
/// end inside it, and makes the reading of the others run out of input.
proof fn lemma_truncated_entries(s: Seq<u8>, k: int, n: nat)
    requires
        20 <= k <= s.len(),
        entries_error(s, n) is None,
    ensures
        entry_start(s, n) <= k ==> entries_error(s.take(k), n) is None && entry_start(
            s.take(k),
            n,
        ) == entry_start(s, n),
        entry_start(s, n) > k ==> entries_error(s.take(k), n) == Some(
            AsepriteParseError::UnexpectedEof,
        ),
    decreases n,
{
    if n > 0 {
        let t = s.take(k);
        let m = (n - 1) as nat;
        let at = entry_start(s, m);
        lemma_truncated_entries(s, k, m);
        lemma_entries_fit(s, m);
        lemma_entries_fit(s, n);
        if at <= k {
            if at + 2 <= k {
                assert(t[at] == s[at] && t[at + 1] == s[at + 1]);
            }
            if at + 8 <= k {
                assert(t[at + 6] == s[at + 6] && t[at + 7] == s[at + 7]);
            }
            if entry_end(s, at) <= k && entry_has_name(s, at) {
                assert(string_bytes(t, at + 6) =~= string_bytes(s, at + 6));
            }
        }
    }
}

/// A palette chunk that is cut short anywhere before its end does not
/// decode: the decoder reports the end of the input, and never a smaller
/// palette.
pub proof fn lemma_truncated_chunk_fails(s: Seq<u8>, k: int)
    requires
        spec_parse_chunk(s) is Ok,
        0 <= k < chunk_len(s),
    ensures
        spec_parse_chunk(s.take(k)) == Err::<Map<u32, ColorPaletteEntryView>, AsepriteParseError>(
            AsepriteParseError::UnexpectedEof,
        ),
{
    let t = s.take(k);
    lemma_parsed_entries(s);
    if k >= 20 {
        assert(t[4] == s[4] && t[5] == s[5] && t[6] == s[6] && t[7] == s[7]);
        assert(t[8] == s[8] && t[9] == s[9] && t[10] == s[10] && t[11] == s[11]);
        lemma_truncated_entries(s, k, chunk_count(s) as nat);
    }
}

impl ColorPalette {
    #[verifier::type_invariant]
    spec fn well_formed(&self) -> bool {
        &&& self.entries@.dom().finite()
        &&& forall|id: u32| #[trigger]
            self.entries@.contains_key(id) ==> self.entries@[id].id == id
    }

    /// The number of colors as [`ColorPalette::num_colors`] reports it: the
    /// number of entries, cut to 32 bits.
    pub open spec fn spec_num_colors(&self) -> u32 {
        self@.len() as u32
    }

    /// Total number of colors in the palette.
    pub fn num_colors(&self) -> (count: u32)
        ensures
            count == self.spec_num_colors(),
            self@.dom().finite(),
    {
        proof {
            use_type_invariant(self);
            assert(self@.dom() =~= self.entries@.dom());
        }
        int_map_len(&self.entries) as u32
    }

    /// Look up entry at given index.
    ///
    /// The file format does not promise that the color indices run from 0
    /// to `num_colors()`, so an index below `num_colors()` may have no
    /// entry.
    pub fn color(&self, index: u32) -> (found: Option<&ColorPaletteEntry>)
        ensures
            match found {
                Some(entry) => {
                    &&& self@.contains_key(index)
                    &&& entry@ == self@[index]
                    &&& entry@.id == index
                },
                None => !self@.contains_key(index),
            },
    {
        proof {
            use_type_invariant(self);
        }
        int_map_get(&self.entries, index)
    }
}


/// Whether pixel number `i` is the first of `pixels` whose index has no
/// entry in `palette`.
pub open spec fn first_missing(
    palette: Map<u32, ColorPaletteEntryView>,
    pixels: Seq<Indexed>,
    i: int,
) -> bool {
    &&& 0 <= i < pixels.len()
    &&& !palette.contains_key(pixels[i]@ as u32)
    &&& forall|j: int| 0 <= j < i ==> palette.contains_key(#[trigger] pixels[j]@ as u32)
}

impl ColorPalette {
    /// Checks that every pixel refers to an entry of the palette. The
    /// first pixel that does not is reported with its index and with the
    /// number of colors of the palette.
    pub fn validate_indexed_pixels(&self, indexed_pixels: &[Indexed]) -> (r: Result<
        (),
        AsepriteParseError,
    >)
        ensures
            match r {
                Ok(_) => forall|i: int|
                    0 <= i < indexed_pixels@.len() ==> self@.contains_key(
                        #[trigger] indexed_pixels@[i]@ as u32,
                    ),
                Err(e) => exists|i: int|
                    {
                        &&& #[trigger] first_missing(self@, indexed_pixels@, i)
                        &&& e == (AsepriteParseError::IndexOutOfRange {
                            index: indexed_pixels@[i]@ as u32,
                            num_colors: self.spec_num_colors(),
                        })
                    },
            },
    {
        let mut i: usize = 0;
        while i < indexed_pixels.len()
            invariant
                i <= indexed_pixels@.len(),
                forall|j: int|
                    0 <= j < i ==> self@.contains_key(#[trigger] indexed_pixels@[j]@ as u32),
            decreases indexed_pixels@.len() - i,
        {
            let pixel: Indexed = indexed_pixels[i];
            let index: u32 = pixel.value() as u32;
            if self.color(index).is_none() {
                assert(first_missing(self@, indexed_pixels@, i as int));
                return Err(
                    AsepriteParseError::IndexOutOfRange { index, num_colors: self.num_colors() },
                );
            }
            i = i + 1;
        }
        Ok(())
    }
}

impl ColorPaletteEntry {
    /// The id of this entry is the same as its index in the palette.
    pub fn id(&self) -> (id: u32)
        ensures
            id == self@.id,
    {
        self.id
    }

    /// Get the RGBA components as an array. Most color libraries allow you
    /// to build an instance of their color type from such an array.
    pub fn raw_rgba8(&self) -> (rgba8: [u8; 4])
        ensures
            rgba8[0] == self@.red,
            rgba8[1] == self@.green,
            rgba8[2] == self@.blue,
            rgba8[3] == self@.alpha,
    {
        self.rgba8
    }

    /// The red channel of the color.
    pub fn red(&self) -> (red: u8)
        ensures
            red == self@.red,
    {
        self.rgba8[0]
    }

    /// The green channel of the color.
    pub fn green(&self) -> (green: u8)
        ensures
            green == self@.green,
    {
        self.rgba8[1]
    }

    /// The blue channel of the color.
    pub fn blue(&self) -> (blue: u8)
        ensures
            blue == self@.blue,
    {
        self.rgba8[2]
    }

    /// Alpha value of this color (0 = fully transparent, 255 = fully opaque).
    pub fn alpha(&self) -> (alpha: u8)
        ensures
            alpha == self@.alpha,
    {
        self.rgba8[3]
    }

    /// The color name. Seems to be usually empty in practice.
    pub fn name(&self) -> (name: Option<&str>)
        ensures
            match name {
                Some(n) => self@.name == Some(n@),
                None => self@.name is None,
            },
    {
        match &self.name {
            Some(n) => Some(n.as_str()),
            None => None,
        }
    }
}

/// Decodes a palette chunk: a header with the first and the last color
/// index, then one entry for each index of that range, in order. A range
/// whose last index is before its first is refused once the header is
/// read, whatever follows it. The first read that fails ends the decoding
/// with its error.
pub fn parse_chunk(data: &[u8]) -> (r: Result<ColorPalette, AsepriteParseError>)
    ensures
        spec_parse_chunk(data@) == match r {
            Ok(palette) => Ok(palette@),
            Err(e) => Err(e),
        },
        r matches Ok(palette) ==> {
            &&& palette@.dom().finite()
            &&& palette@.len() == chunk_last(data@) - chunk_first(data@) + 1
            &&& chunk_count(data@) <= u32::MAX ==> palette.spec_num_colors() == chunk_count(data@)
            &&& forall|id: u32| #[trigger]
                palette@.contains_key(id) <==> chunk_first(data@) <= id <= chunk_last(data@)
            &&& forall|id: u32| #[trigger] palette@.contains_key(id) ==> palette@[id].id == id
        },
        data@.len() >= 20 && chunk_last(data@) < chunk_first(data@) ==> (r matches Err(e) && e
            == (AsepriteParseError::InvalidPaletteRange {
            first: chunk_first(data@),
            last: chunk_last(data@),
        })),
{
    let mut reader = AseReader::new(data);

    let _num_total_entries: u32 = reader.dword()?;
    let first_color_index: u32 = reader.dword()?;
    let last_color_index: u32 = reader.dword()?;
    reader.skip_reserved(8)?;

    if last_color_index < first_color_index {
        return Err(
            AsepriteParseError::InvalidPaletteRange {
                first: first_color_index,
                last: last_color_index,
            },
        );
    }
    let count: u64 = (last_color_index - first_color_index) as u64 + 1;
    let mut entries: IntMap<u32, ColorPaletteEntry> = IntMap::default();

    let mut i: u64 = 0;
    while i < count
        invariant
            reader.bytes() == data@,
            data@.len() >= 20,
            first_color_index == chunk_first(data@),
            last_color_index == chunk_last(data@),
            first_color_index <= last_color_index,
            count == chunk_count(data@),
            i <= count,
            reader.position() == entry_start(data@, i as nat),
            entries_error(data@, i as nat) is None,
            entries@.dom().finite(),
            entries@.len() == i,
            forall|id: u32| #[trigger]
                entries@.contains_key(id) <==> first_color_index <= id < first_color_index + i,
            forall|id: u32| #[trigger]
                entries@.contains_key(id) ==> {
                    &&& entries@[id].id == id
                    &&& entries@[id]@ == entry_at(
                        data@,
                        entry_start(data@, (id - first_color_index) as nat),
                        id,
                    )
                },
        decreases count - i,
    {
        let ghost at = reader.position();
        proof {
            assert(entries_error(data@, (i + 1) as nat) == entry_error(data@, at));
            if entry_error(data@, at) is Some {
                lemma_entries_error_stays(data@, (i + 1) as nat, count as nat);
            }
        }
        let flags: u16 = reader.word()?;
        let red: u8 = reader.byte()?;
        let green: u8 = reader.byte()?;
        let blue: u8 = reader.byte()?;
        let alpha: u8 = reader.byte()?;
        let name: Option<String> = if flags & FLAG_NAME == 1 {
            let s: String = reader.string()?;
            Some(s)
        } else {
            None
        };
        let id: u32 = (first_color_index as u64 + i) as u32;
        let entry = ColorPaletteEntry { id, rgba8: [red, green, blue, alpha], name };
        assert(entry@ == entry_at(data@, at, id));
        int_map_insert(&mut entries, id, entry);
        i = i + 1;
    }
    let palette = ColorPalette { entries };
    proof {
        assert(palette@.dom() =~= entries@.dom());
        assert(palette@ =~= chunk_entries(data@));
    }
    Ok(palette)
}

} // verus!
