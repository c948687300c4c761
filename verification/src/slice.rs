//! Slice chunks: a named region of the sprite and its geometry over time.

use crate::error::AsepriteParseError;
use crate::reader::AseReader;
use crate::wire::{spec_dword, spec_long, string_bytes, string_end, string_fits};
use crate::user_data::{UserData, UserDataView};
use vstd::prelude::*;
use vstd::utf8::{decode_utf8, valid_utf8};

verus! {

/// The bit of a chunk's flags that says that every key has a [`Slice9`].
pub const FLAG_SLICE9: u32 = 1;

/// The bit of a chunk's flags that says that every key has a [`SlicePivot`].
pub const FLAG_PIVOT: u32 = 2;

/// A slice is a region of the sprite with a name and optional [`UserData`].
#[derive(Debug, Clone)]
pub struct Slice {
    /// The name of the slice. Not guaranteed to be unique.
    pub name: String,
    /// The keys that describe the shape and position of the slice during
    /// the animation, in the order of the file.
    pub keys: Vec<SliceKey>,
    /// Optional [`UserData`] associated with this slice.
    pub user_data: Option<UserData>,
}

/// A Slice9 divides a [`Slice`] into nine regions for 9-slice scaling.
#[derive(Debug, Clone, Copy, PartialEq, Eq)]
pub struct Slice9 {
    /// Center X position (relative to slice bounds).
    pub center_x: i32,
    /// Center Y position (relative to slice bounds).
    pub center_y: i32,
    /// Center width.
    pub center_width: u32,
    /// Center height.
    pub center_height: u32,
}

/// A SliceOrigin describes the position of a [`Slice`] within the sprite.
#[derive(Debug, Clone, Copy, PartialEq, Eq)]
pub struct SliceOrigin {
    /// A [`Slice`]'s x origin coordinate in the sprite.
    pub x: i32,
    /// A [`Slice`]'s y origin coordinate in the sprite.
    pub y: i32,
}

/// SliceSize describes the size of a [`Slice`] in pixels.
#[derive(Debug, Clone, Copy, PartialEq, Eq)]
pub struct SliceSize {
    /// Slice width. This can be 0 if this slice is hidden in the animation
    /// from the given frame.
    pub width: u32,
    /// Slice height.
    pub height: u32,
}

/// SlicePivot describes a [`Slice`]'s pivot position relative to the
/// slice's origin.
#[derive(Debug, Clone, Copy, PartialEq, Eq)]
pub struct SlicePivot {
    /// Pivot X position (relative to the slice origin).
    pub x: i32,
    /// Pivot Y position (relative to the slice origin).
    pub y: i32,
}

/// SliceKey describes the position and shape of a [`Slice`], starting at a
/// given frame.
#[derive(Debug, Clone, Copy, PartialEq, Eq)]
pub struct SliceKey {
    /// Starting frame number for this slice key. (This slice is valid from
    /// this frame to the end of the animation.)
    pub from_frame: u32,
    /// Origin of the slice.
    pub origin: SliceOrigin,
    /// Size of the slice.
    pub size: SliceSize,
    /// Optional 9-slicing information.
    pub slice9: Option<Slice9>,
    /// Optional pivot information.
    pub pivot: Option<SlicePivot>,
}

/// What a [`Slice`] holds, as mathematical values.
pub struct SliceView {
    pub name: Seq<char>,
    pub keys: Seq<SliceKey>,
    pub user_data: Option<UserDataView>,
}

impl View for Slice {
    type V = SliceView;

    open spec fn view(&self) -> SliceView {
        SliceView {
            name: self.name@,
            keys: self.keys@,
            user_data: match self.user_data {
                Some(u) => Some(u@),
                None => None,
            },
        }
    }
}

/// Whether chunk flags announce a [`Slice9`] in every key.
pub open spec fn has_slice9(flags: u32) -> bool {
    flags & FLAG_SLICE9 != 0
}

/// Whether chunk flags announce a [`SlicePivot`] in every key.
pub open spec fn has_pivot(flags: u32) -> bool {
    flags & FLAG_PIVOT != 0
}

/// The [`Slice9`] whose 16 bytes start at `at`.
pub open spec fn slice9_at(s: Seq<u8>, at: int) -> Slice9 {
    Slice9 {
        center_x: spec_long(s, at),
        center_y: spec_long(s, at + 4),
        center_width: spec_dword(s, at + 8),
        center_height: spec_dword(s, at + 12),
    }
}

/// The [`SliceOrigin`] whose 8 bytes start at `at`.
pub open spec fn origin_at(s: Seq<u8>, at: int) -> SliceOrigin {
    SliceOrigin { x: spec_long(s, at), y: spec_long(s, at + 4) }
}

/// The [`SliceSize`] whose 8 bytes start at `at`.
pub open spec fn size_at(s: Seq<u8>, at: int) -> SliceSize {
    SliceSize { width: spec_dword(s, at), height: spec_dword(s, at + 4) }
}

/// The [`SlicePivot`] whose 8 bytes start at `at`.
pub open spec fn pivot_at(s: Seq<u8>, at: int) -> SlicePivot {
    SlicePivot { x: spec_long(s, at), y: spec_long(s, at + 4) }
}

/// The number of bytes that one key takes in a chunk with these flags.
pub open spec fn key_size(flags: u32) -> int {
    20 + (if has_slice9(flags) {
        16int
    } else {
        0int
    }) + (if has_pivot(flags) {
        8int
    } else {
        0int
    })
}

/// The [`SliceKey`] that starts at `at` in a chunk with these flags: frame,
/// origin and size, then the nine-slice data and the pivot as far as the
/// flags announce them.
pub open spec fn key_at(s: Seq<u8>, at: int, flags: u32) -> SliceKey {
    SliceKey {
        from_frame: spec_dword(s, at),
        origin: origin_at(s, at + 4),
        size: size_at(s, at + 12),
        slice9: if has_slice9(flags) {
            Some(slice9_at(s, at + 20))
        } else {
            None
        },
        pivot: if has_pivot(flags) {
            Some(pivot_at(s, at + key_size(flags) - 8))
        } else {
            None
        },
    }
}

/// The number of keys that a slice chunk announces.
pub open spec fn chunk_num_keys(s: Seq<u8>) -> u32 {
    spec_dword(s, 0)
}

/// The flags of a slice chunk.
pub open spec fn chunk_flags(s: Seq<u8>) -> u32 {
    spec_dword(s, 4)
}

/// Where the keys of a slice chunk start: behind the three header fields
/// and the name.
pub open spec fn chunk_keys_start(s: Seq<u8>) -> int {
    string_end(s, 12)
}

/// The number of bytes that a slice chunk takes: header, name and keys.
pub open spec fn chunk_len(s: Seq<u8>) -> int {
    chunk_keys_start(s) + chunk_num_keys(s) * key_size(chunk_flags(s))
}

/// Where key number `i` of a slice chunk starts.
pub open spec fn chunk_key_start(s: Seq<u8>, i: int) -> int {
    chunk_keys_start(s) + i * key_size(chunk_flags(s))
}

/// The keys of a slice chunk, in the order of the file.
pub open spec fn chunk_keys(s: Seq<u8>) -> Seq<SliceKey> {
    Seq::new(
        chunk_num_keys(s) as nat,
        |i: int| key_at(s, chunk_key_start(s, i), chunk_flags(s)),
    )
}

/// What decoding the slice chunk `s` gives. The header and the name are
/// read first, so a name that is cut short or not valid UTF-8 is reported
/// before any missing key.
pub open spec fn spec_parse_chunk(s: Seq<u8>) -> Result<SliceView, AsepriteParseError> {
    if !string_fits(s, 12) {
        Err(AsepriteParseError::UnexpectedEof)
    } else if !valid_utf8(string_bytes(s, 12)) {
        Err(AsepriteParseError::InvalidUtf8)
    } else if s.len() < chunk_len(s) {
        Err(AsepriteParseError::UnexpectedEof)
    } else {
        Ok(SliceView { name: decode_utf8(string_bytes(s, 12)), keys: chunk_keys(s), user_data: None })
    }
}

/// A slice chunk that is cut short anywhere before its end does not
/// decode: the decoder reports the end of the input, and never a shorter
/// slice.
pub proof fn lemma_truncated_chunk_fails(s: Seq<u8>, k: int)
    requires
        spec_parse_chunk(s) is Ok,
        0 <= k < chunk_len(s),
    ensures
        spec_parse_chunk(s.take(k)) == Err::<SliceView, AsepriteParseError>(
            AsepriteParseError::UnexpectedEof,
        ),
{
    let t = s.take(k);
    if k >= 14 && k >= string_end(s, 12) {
        assert(t[12] == s[12] && t[13] == s[13]);
        assert(string_bytes(t, 12) =~= string_bytes(s, 12));
        assert(t[0] == s[0] && t[1] == s[1] && t[2] == s[2] && t[3] == s[3]);
        assert(t[4] == s[4] && t[5] == s[5] && t[6] == s[6] && t[7] == s[7]);
    } else if k >= 14 {
        assert(t[12] == s[12] && t[13] == s[13]);
    }
}


impl Slice9 {
    /// Reads the center rectangle: two signed and two unsigned 32-bit
    /// numbers.
    pub fn read(reader: &mut AseReader) -> (r: Result<Slice9, AsepriteParseError>)
        ensures
            final(reader).bytes() == old(reader).bytes(),
            old(reader).position() <= final(reader).position(),
            match r {
                Ok(v) => {
                    &&& old(reader).remaining() >= 16
                    &&& v == slice9_at(old(reader).bytes(), old(reader).position())
                    &&& final(reader).position() == old(reader).position() + 16
                },
                Err(e) => old(reader).remaining() < 16 && e == AsepriteParseError::UnexpectedEof,
            },
    {
        let center_x: i32 = reader.long()?;
        let center_y: i32 = reader.long()?;
        let center_width: u32 = reader.dword()?;
        let center_height: u32 = reader.dword()?;
        Ok(Slice9 { center_x, center_y, center_width, center_height })
    }
}

impl SliceOrigin {
    /// Reads a position: two signed 32-bit numbers.
    pub fn read(reader: &mut AseReader) -> (r: Result<SliceOrigin, AsepriteParseError>)
        ensures
            final(reader).bytes() == old(reader).bytes(),
            old(reader).position() <= final(reader).position(),
            match r {
                Ok(v) => {
                    &&& old(reader).remaining() >= 8
                    &&& v == origin_at(old(reader).bytes(), old(reader).position())
                    &&& final(reader).position() == old(reader).position() + 8
                },
                Err(e) => old(reader).remaining() < 8 && e == AsepriteParseError::UnexpectedEof,
            },
    {
        let x: i32 = reader.long()?;
        let y: i32 = reader.long()?;
        Ok(SliceOrigin { x, y })
    }
}

impl SliceSize {
    /// Reads a size: two unsigned 32-bit numbers.
    pub fn read(reader: &mut AseReader) -> (r: Result<SliceSize, AsepriteParseError>)
        ensures
            final(reader).bytes() == old(reader).bytes(),
            old(reader).position() <= final(reader).position(),
            match r {
                Ok(v) => {
                    &&& old(reader).remaining() >= 8
                    &&& v == size_at(old(reader).bytes(), old(reader).position())
                    &&& final(reader).position() == old(reader).position() + 8
                },
                Err(e) => old(reader).remaining() < 8 && e == AsepriteParseError::UnexpectedEof,
            },
    {
        let width: u32 = reader.dword()?;
        let height: u32 = reader.dword()?;
        Ok(SliceSize { width, height })
    }
}

impl SlicePivot {
    /// Reads a pivot: two signed 32-bit numbers.
    pub fn read(reader: &mut AseReader) -> (r: Result<SlicePivot, AsepriteParseError>)
        ensures
            final(reader).bytes() == old(reader).bytes(),
            old(reader).position() <= final(reader).position(),
            match r {
                Ok(v) => {
                    &&& old(reader).remaining() >= 8
                    &&& v == pivot_at(old(reader).bytes(), old(reader).position())
                    &&& final(reader).position() == old(reader).position() + 8
                },
                Err(e) => old(reader).remaining() < 8 && e == AsepriteParseError::UnexpectedEof,
            },
    {
        let x: i32 = reader.long()?;
        let y: i32 = reader.long()?;
        Ok(SlicePivot { x, y })
    }
}

impl SliceKey {
    /// Reads one key of a chunk with the given flags. The key has a
    /// [`Slice9`] exactly if the flags have [`FLAG_SLICE9`], and a
    /// [`SlicePivot`] exactly if they have [`FLAG_PIVOT`].
    pub fn read(reader: &mut AseReader, flags: u32) -> (r: Result<SliceKey, AsepriteParseError>)
        ensures
            final(reader).bytes() == old(reader).bytes(),
            old(reader).position() <= final(reader).position(),
            match r {
                Ok(key) => {
                    &&& old(reader).remaining() >= key_size(flags)
                    &&& key == key_at(old(reader).bytes(), old(reader).position(), flags)
                    &&& final(reader).position() == old(reader).position() + key_size(flags)
                },
                Err(e) => {
                    &&& old(reader).remaining() < key_size(flags)
                    &&& e == AsepriteParseError::UnexpectedEof
                },
            },
    {
        let from_frame: u32 = reader.dword()?;
        let origin = SliceOrigin::read(reader)?;
        let size = SliceSize::read(reader)?;
        let slice9 = if flags & FLAG_SLICE9 != 0 {
            Some(Slice9::read(reader)?)
        } else {
            None
        };
        let pivot = if flags & FLAG_PIVOT != 0 {
            Some(SlicePivot::read(reader)?)
        } else {
            None
        };
        Ok(SliceKey { from_frame, origin, size, slice9, pivot })
    }
}

/// Decodes a slice chunk: the number of keys, the flags, a reserved field,
/// the name, and then the keys one after the other. The result is all or
/// nothing: the first read that fails ends the decoding with its error.
pub fn parse_chunk(data: &[u8]) -> (r: Result<Slice, AsepriteParseError>)
    ensures
        spec_parse_chunk(data@) == match r {
            Ok(slice) => Ok(slice@),
            Err(e) => Err(e),
        },
        r matches Ok(slice) ==> {
            &&& slice.keys@.len() == chunk_num_keys(data@)
            &&& slice.user_data is None
            &&& forall|i: int|
                0 <= i < slice.keys@.len() ==> {
                    &&& (#[trigger] slice.keys@[i]).slice9 is Some <==> has_slice9(
                        chunk_flags(data@),
                    )
                    &&& slice.keys@[i].pivot is Some <==> has_pivot(chunk_flags(data@))
                }
        },
{
    let mut reader = AseReader::new(data);

    let num_slice_keys: u32 = reader.dword()?;
    let flags: u32 = reader.dword()?;
    let _reserved: u32 = reader.dword()?;
    let name: String = reader.string()?;
    let mut keys: Vec<SliceKey> = Vec::new();
    let mut i: u32 = 0;
    while i < num_slice_keys
        invariant
            reader.bytes() == data@,
            string_fits(data@, 12),
            valid_utf8(string_bytes(data@, 12)),
            num_slice_keys == chunk_num_keys(data@),
            flags == chunk_flags(data@),
            i <= num_slice_keys,
            reader.position() == chunk_key_start(data@, i as int),
            reader.position() <= data@.len(),
            keys@.len() == i,
            forall|j: int|
                0 <= j < i ==> #[trigger] keys@[j] == key_at(data@, chunk_key_start(data@, j), flags),
        decreases num_slice_keys - i,
    {
        let ghost size = key_size(flags);
        assert((i + 1) * size == i * size + size) by (nonlinear_arith);
        match SliceKey::read(&mut reader, flags) {
            Ok(key) => {
                keys.push(key);
            },
            Err(e) => {
                assert((i + 1) * size <= num_slice_keys * size) by (nonlinear_arith)
                    requires
                        i + 1 <= num_slice_keys,
                        size >= 0,
                ;
                return Err(e);
            },
        }
        i = i + 1;
    }
    assert(keys@ =~= chunk_keys(data@));
    Ok(Slice { name, keys, user_data: None })
}

} // verus!
