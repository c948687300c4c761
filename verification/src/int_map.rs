//! `nohash::IntMap` keyed by `u32`: a hash map whose hasher hands the key
//! back as its own hash. The contents of a map `m` are `m@`.
//!
//! What vstd states of `HashMap` holds for hashers that it knows to be
//! deterministic. It does not know nohash's, so the three operations that
//! the palette needs are stated here, and trusted.

use nohash::IntMap;
use vstd::prelude::*;

verus! {

/// `nohash::NoHashHasher`, the hasher of an `IntMap`. Nothing is stated of
/// its inside.
#[verifier::external_type_specification]
#[verifier::external_body]
#[verifier::reject_recursive_types(T)]
pub struct ExNoHashHasher<T>(nohash::NoHashHasher<T>);

/// `core::hash::BuildHasherDefault`, which makes the hashers of an
/// `IntMap`. Nothing is stated of its inside.
#[verifier::external_type_specification]
#[verifier::external_body]
#[verifier::reject_recursive_types(H)]
pub struct ExBuildHasherDefault<H>(core::hash::BuildHasherDefault<H>);

/// `HashMap::insert` on a `nohash::IntMap`. `NoHashHasher` takes the one
/// `write_u32` that hashing a `u32` makes and returns that number from
/// `finish`, so equal keys hash alike and the map behaves as a map: the
/// key is bound to the new value, all other bindings stay, and the value
/// that the key was bound to before, if any, is returned.
#[verifier::external_body]
pub(crate) fn int_map_insert<V>(map: &mut IntMap<u32, V>, key: u32, value: V) -> (previous: Option<
    V,
>)
    ensures
        final(map)@ == old(map)@.insert(key, value),
        match previous {
            Some(v) => old(map)@.contains_key(key) && v == old(map)@[key],
            None => !old(map)@.contains_key(key),
        },
{
    map.insert(key, value)
}

/// `HashMap::get` on a `nohash::IntMap`: the value that the key is bound
/// to, or `None` if it is bound to none.
#[verifier::external_body]
pub(crate) fn int_map_get<'a, V>(map: &'a IntMap<u32, V>, key: u32) -> (found: Option<&'a V>)
    ensures
        match found {
            Some(v) => map@.contains_key(key) && *v == map@[key],
            None => !map@.contains_key(key),
        },
{
    map.get(&key)
}

/// `HashMap::len` on a `nohash::IntMap`: the number of keys that are bound.
#[verifier::external_body]
pub(crate) fn int_map_len<V>(map: &IntMap<u32, V>) -> (len: usize)
    requires
        map@.dom().finite(),
    ensures
        len == map@.len(),
{
    map.len()
}

} // verus!
