//! How a slice is written as a chunk, and the proof that decoding reads
//! back what was written.

use crate::error::AsepriteParseError;
use crate::slice::{
    chunk_flags, chunk_key_start, chunk_keys, chunk_keys_start, chunk_len, chunk_num_keys,
    has_pivot, has_slice9, key_at, key_size, spec_parse_chunk, Slice9, SliceKey, SliceOrigin,
    SlicePivot, SliceSize, SliceView, FLAG_PIVOT, FLAG_SLICE9,
};
use crate::wire::{
    dword_bytes, holds_at, lemma_dword_at, lemma_holds_at_concat, lemma_long_at,
    lemma_string_at, long_bytes, string_bytes, string_encodable, string_encoding, string_fits,
};
use vstd::prelude::*;
use vstd::utf8::{decode_utf8, decode_utf8_encode_utf8, valid_utf8};

verus! {

/// The bytes of a [`SliceOrigin`].
pub open spec fn origin_bytes(origin: SliceOrigin) -> Seq<u8> {
    long_bytes(origin.x) + long_bytes(origin.y)
}

/// The bytes of a [`SliceSize`].
pub open spec fn size_bytes(size: SliceSize) -> Seq<u8> {
    dword_bytes(size.width) + dword_bytes(size.height)
}

/// The bytes of a [`Slice9`].
pub open spec fn slice9_bytes(center: Slice9) -> Seq<u8> {
    long_bytes(center.center_x) + long_bytes(center.center_y) + dword_bytes(center.center_width)
        + dword_bytes(center.center_height)
}

/// The bytes of a [`SlicePivot`].
pub open spec fn pivot_bytes(pivot: SlicePivot) -> Seq<u8> {
    long_bytes(pivot.x) + long_bytes(pivot.y)
}

/// The bytes of a [`SliceKey`]: frame, origin and size, then the
/// nine-slice data and the pivot as far as the key has them.
pub open spec fn key_bytes(key: SliceKey) -> Seq<u8> {
    dword_bytes(key.from_frame) + origin_bytes(key.origin) + size_bytes(key.size) + (match key.slice9 {
        Some(center) => slice9_bytes(center),
        None => Seq::empty(),
    }) + (match key.pivot {
        Some(pivot) => pivot_bytes(pivot),
        None => Seq::empty(),
    })
}

/// The bytes of a sequence of keys, one key after the other.
pub open spec fn keys_bytes(keys: Seq<SliceKey>) -> Seq<u8>
    decreases keys.len(),
{
    if keys.len() == 0 {
        Seq::empty()
    } else {
        keys_bytes(keys.drop_last()) + key_bytes(keys.last())
    }
}

/// The chunk flags for keys that have a [`Slice9`], a [`SlicePivot`], both
/// or neither.
pub open spec fn flags_for(slice9: bool, pivot: bool) -> u32 {
    (if slice9 {
        FLAG_SLICE9
    } else {
        0u32
    }) | (if pivot {
        FLAG_PIVOT
    } else {
        0u32
    })
}

/// Whether every key has a [`Slice9`] exactly if the flags announce one,
/// and a [`SlicePivot`] exactly if the flags announce one.
pub open spec fn gated_by(keys: Seq<SliceKey>, flags: u32) -> bool {
    forall|i: int|
        0 <= i < keys.len() ==> {
            &&& (#[trigger] keys[i]).slice9 is Some <==> has_slice9(flags)
            &&& keys[i].pivot is Some <==> has_pivot(flags)
        }
}

/// The chunk flags under which a sequence of keys is written: those that
/// fit its first key, and none if it is empty.
pub open spec fn keys_flags(keys: Seq<SliceKey>) -> u32 {
    if keys.len() == 0 {
        0
    } else {
        flags_for(keys[0].slice9 is Some, keys[0].pivot is Some)
    }
}

/// Whether a slice can be written as a chunk: the length of its name and
/// the number of its keys fit their fields, all keys have the same
/// optional parts, and no user data is attached.
pub open spec fn encodable(slice: SliceView) -> bool {
    &&& string_encodable(slice.name)
    &&& slice.keys.len() <= u32::MAX
    &&& gated_by(slice.keys, keys_flags(slice.keys))
    &&& slice.user_data is None
}

/// A slice as a chunk: the number of keys, the flags, a reserved field of
/// zero, the name and the keys.
pub open spec fn spec_encode_chunk(slice: SliceView) -> Seq<u8> {
    dword_bytes(slice.keys.len() as u32) + dword_bytes(keys_flags(slice.keys)) + dword_bytes(0)
        + string_encoding(slice.name) + keys_bytes(slice.keys)
}

/// The flags for given optional parts announce exactly those parts.
pub proof fn lemma_flags_for(slice9: bool, pivot: bool)
    ensures
        has_slice9(flags_for(slice9, pivot)) == slice9,
        has_pivot(flags_for(slice9, pivot)) == pivot,
        has_slice9(0) == false,
        has_pivot(0) == false,
{
    assert((1u32 | 2u32) & 1u32 != 0 && (1u32 | 2u32) & 2u32 != 0) by (bit_vector);
    assert((1u32 | 0u32) & 1u32 != 0 && (1u32 | 0u32) & 2u32 == 0) by (bit_vector);
    assert((0u32 | 2u32) & 1u32 == 0 && (0u32 | 2u32) & 2u32 != 0) by (bit_vector);
    assert((0u32 | 0u32) & 1u32 == 0 && (0u32 | 0u32) & 2u32 == 0) by (bit_vector);
    assert(0u32 & 1u32 == 0 && 0u32 & 2u32 == 0) by (bit_vector);
}

/// Reading where a key was written, under flags that fit the key, gives
/// that key, and the key takes as many bytes as the flags say.
pub proof fn lemma_key_at(s: Seq<u8>, at: int, key: SliceKey, flags: u32)
    requires
        holds_at(s, at, key_bytes(key)),
        key.slice9 is Some <==> has_slice9(flags),
        key.pivot is Some <==> has_pivot(flags),
    ensures
        key_bytes(key).len() == key_size(flags),
        key_at(s, at, flags) == key,
{
    let frame = dword_bytes(key.from_frame);
    let origin = origin_bytes(key.origin);
    let size = size_bytes(key.size);
    let center = match key.slice9 {
        Some(c) => slice9_bytes(c),
        None => Seq::empty(),
    };
    let pivot = match key.pivot {
        Some(p) => pivot_bytes(p),
        None => Seq::empty(),
    };
    lemma_holds_at_concat(s, at, frame + origin + size + center, pivot);
    lemma_holds_at_concat(s, at, frame + origin + size, center);
    lemma_holds_at_concat(s, at, frame + origin, size);
    lemma_holds_at_concat(s, at, frame, origin);
    lemma_dword_at(s, at, key.from_frame);
    lemma_holds_at_concat(s, at + 4, long_bytes(key.origin.x), long_bytes(key.origin.y));
    lemma_long_at(s, at + 4, key.origin.x);
    lemma_long_at(s, at + 8, key.origin.y);
    lemma_holds_at_concat(s, at + 12, dword_bytes(key.size.width), dword_bytes(key.size.height));
    lemma_dword_at(s, at + 12, key.size.width);
    lemma_dword_at(s, at + 16, key.size.height);
    match key.slice9 {
        Some(c) => {
            let x = long_bytes(c.center_x);
            let y = long_bytes(c.center_y);
            let w = dword_bytes(c.center_width);
            let h = dword_bytes(c.center_height);
            lemma_holds_at_concat(s, at + 20, x + y + w, h);
            lemma_holds_at_concat(s, at + 20, x + y, w);
            lemma_holds_at_concat(s, at + 20, x, y);
            lemma_long_at(s, at + 20, c.center_x);
            lemma_long_at(s, at + 24, c.center_y);
            lemma_dword_at(s, at + 28, c.center_width);
            lemma_dword_at(s, at + 32, c.center_height);
        },
        None => {},
    }
    match key.pivot {
        Some(p) => {
            let start = at + 20 + center.len();
            lemma_holds_at_concat(s, start, long_bytes(p.x), long_bytes(p.y));
            lemma_long_at(s, start, p.x);
            lemma_long_at(s, start + 4, p.y);
        },
        None => {},
    }
}

/// Where the keys of a sequence were written one after the other, each
/// key stands at its place, and together they take as many bytes as
/// their number and the flags say.
pub proof fn lemma_keys_at(s: Seq<u8>, start: int, keys: Seq<SliceKey>, flags: u32)
    requires
        holds_at(s, start, keys_bytes(keys)),
        gated_by(keys, flags),
    ensures
        keys_bytes(keys).len() == keys.len() * key_size(flags),
        forall|i: int|
            0 <= i < keys.len() ==> key_at(s, start + i * key_size(flags), flags)
                == #[trigger] keys[i],
    decreases keys.len(),
{
    if keys.len() > 0 {
        let front = keys.drop_last();
        let size = key_size(flags);
        let n = front.len() as int;
        lemma_holds_at_concat(s, start, keys_bytes(front), key_bytes(keys.last()));
        lemma_keys_at(s, start, front, flags);
        assert(keys_bytes(front).len() == n * size);
        lemma_key_at(s, start + n * size, keys.last(), flags);
        assert((n + 1) * size == n * size + size) by (nonlinear_arith);
        assert forall|i: int| 0 <= i < keys.len() implies key_at(s, start + i * size, flags)
            == #[trigger] keys[i] by {
            if i < n {
                assert(front[i] == keys[i]);
            }
        }
    } else {
        assert(0 * key_size(flags) == 0) by (nonlinear_arith);
    }
}

/// What the header and the name of a written chunk read as, and where
/// its keys stand.
proof fn lemma_encoded_header(slice: SliceView)
    requires
        encodable(slice),
    ensures
        ({
            let s = spec_encode_chunk(slice);
            &&& chunk_num_keys(s) == slice.keys.len()
            &&& chunk_flags(s) == keys_flags(slice.keys)
            &&& string_fits(s, 12)
            &&& valid_utf8(string_bytes(s, 12))
            &&& decode_utf8(string_bytes(s, 12)) == slice.name
            &&& holds_at(s, chunk_keys_start(s), keys_bytes(slice.keys))
            &&& s.len() == chunk_keys_start(s) + keys_bytes(slice.keys).len()
        }),
{
    let s = spec_encode_chunk(slice);
    let count = dword_bytes(slice.keys.len() as u32);
    let flags = dword_bytes(keys_flags(slice.keys));
    let name = string_encoding(slice.name);
    let keys = keys_bytes(slice.keys);
    assert(s.subrange(0, s.len() as int) =~= s);
    lemma_holds_at_concat(s, 0, count + flags + dword_bytes(0) + name, keys);
    lemma_holds_at_concat(s, 0, count + flags + dword_bytes(0), name);
    lemma_holds_at_concat(s, 0, count + flags, dword_bytes(0));
    lemma_holds_at_concat(s, 0, count, flags);
    lemma_dword_at(s, 0, slice.keys.len() as u32);
    lemma_dword_at(s, 4, keys_flags(slice.keys));
    lemma_string_at(s, 12, slice.name);
}

/// Decoding the chunk that a slice was written as gives that slice, and
/// takes all of the chunk.
pub proof fn lemma_parse_encoded(slice: SliceView)
    requires
        encodable(slice),
    ensures
        spec_parse_chunk(spec_encode_chunk(slice)) == Ok::<SliceView, AsepriteParseError>(slice),
        chunk_len(spec_encode_chunk(slice)) == spec_encode_chunk(slice).len(),
{
    let s = spec_encode_chunk(slice);
    lemma_encoded_header(slice);
    lemma_keys_at(s, chunk_keys_start(s), slice.keys, chunk_flags(s));
    assert(chunk_keys(s) =~= slice.keys) by {
        assert forall|i: int| 0 <= i < slice.keys.len() implies chunk_keys(s)[i]
            == slice.keys[i] by {
            assert(chunk_keys(s)[i] == key_at(s, chunk_key_start(s, i), chunk_flags(s)));
        }
    }
}

/// Whatever decoding gives can be written as a chunk again.
pub proof fn lemma_parsed_is_encodable(s: Seq<u8>)
    requires
        spec_parse_chunk(s) is Ok,
    ensures
        encodable(spec_parse_chunk(s)->Ok_0),
        gated_by(spec_parse_chunk(s)->Ok_0.keys, chunk_flags(s)),
{
    let slice = spec_parse_chunk(s)->Ok_0;
    let raw = string_bytes(s, 12);
    decode_utf8_encode_utf8(raw);
    let flags = chunk_flags(s);
    assert(gated_by(slice.keys, flags));
    if slice.keys.len() > 0 {
        lemma_flags_for(slice.keys[0].slice9 is Some, slice.keys[0].pivot is Some);
    }
}

/// Writing what a chunk decodes to and decoding that again gives the same
/// slice: names, keys and the optional parts of the keys are kept.
pub proof fn lemma_round_trip(s: Seq<u8>)
    requires
        spec_parse_chunk(s) is Ok,
    ensures
        spec_parse_chunk(spec_encode_chunk(spec_parse_chunk(s)->Ok_0)) == spec_parse_chunk(s),
{
    lemma_parsed_is_encodable(s);
    lemma_parse_encoded(spec_parse_chunk(s)->Ok_0);
}

} // verus!
