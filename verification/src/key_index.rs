//! Trusted wrappers around the key-to-handle hash index.
//!
//! [`StableMap`](crate::map::StableMap) keys its handles by `u64` in a
//! `hashbrown` hash map. Verus cannot declare that type directly, so it is
//! held in a private field of [`KeyIndex`] and seen only through the
//! contracts below, stated over the map of entries it holds.

use vstd::prelude::*;
use crate::pos_vec::Pos;

verus! {

/// The key-to-handle table: a `hashbrown::HashMap` from keys to position
/// handles, under its default hasher.
#[verifier::external_body]
pub struct KeyIndex {
    m: hashbrown::HashMap<u64, Pos>,
}

/// The map of entries a key index currently holds.
pub uninterp spec fn key_index_view(m: KeyIndex) -> Map<u64, Pos>;

/// The empty key-to-handle map.
pub open spec fn empty_key_map() -> Map<u64, Pos> {
    Map::empty()
}

/// Relies on `HashMap::new`: a fresh table holds nothing.
#[verifier::external_body]
pub fn ki_new() -> (r: KeyIndex)
    ensures
        key_index_view(r) == empty_key_map(),
{
    KeyIndex { m: hashbrown::HashMap::new() }
}

/// Relies on `HashMap::with_capacity`: a fresh table holds nothing.
#[verifier::external_body]
pub fn ki_with_capacity(capacity: usize) -> (r: KeyIndex)
    ensures
        key_index_view(r) == empty_key_map(),
{
    KeyIndex { m: hashbrown::HashMap::with_capacity(capacity) }
}

/// Relies on `HashMap::len`: the number of entries held.
#[verifier::external_body]
pub fn ki_len(m: &KeyIndex) -> (r: usize)
    ensures
        r == key_index_view(*m).dom().len(),
{
    m.m.len()
}

/// Relies on `HashMap::capacity`: room for at least the held entries.
#[verifier::external_body]
pub fn ki_capacity(m: &KeyIndex) -> (r: usize)
    ensures
        key_index_view(*m).dom().finite() ==> r >= key_index_view(*m).dom().len(),
{
    m.m.capacity()
}

/// Relies on `HashMap::contains_key`.
#[verifier::external_body]
pub fn ki_contains(m: &KeyIndex, k: u64) -> (r: bool)
    ensures
        r == key_index_view(*m).contains_key(k),
{
    m.m.contains_key(&k)
}

/// Relies on `HashMap::get`: the handle stored under the key, if any.
#[verifier::external_body]
pub fn ki_get(m: &KeyIndex, k: u64) -> (r: Option<Pos>)
    ensures
        match r {
            Some(p) => key_index_view(*m).contains_key(k) && key_index_view(*m)[k] == p,
            None => !key_index_view(*m).contains_key(k),
        },
{
    m.m.get(&k).copied()
}

/// Relies on `HashMap::insert`: the entry is added or replaced, and the
/// previous handle under the key comes back.
#[verifier::external_body]
pub fn ki_insert(m: &mut KeyIndex, k: u64, p: Pos) -> (r: Option<Pos>)
    ensures
        key_index_view(*final(m)) == key_index_view(*old(m)).insert(k, p),
        match r {
            Some(q) => key_index_view(*old(m)).contains_key(k) && key_index_view(*old(m))[k]
                == q,
            None => !key_index_view(*old(m)).contains_key(k),
        },
{
    m.m.insert(k, p)
}

/// Relies on `HashMap::remove`: the entry leaves the table, and its handle
/// comes back.
#[verifier::external_body]
pub fn ki_remove(m: &mut KeyIndex, k: u64) -> (r: Option<Pos>)
    ensures
        key_index_view(*final(m)) == key_index_view(*old(m)).remove(k),
        match r {
            Some(q) => key_index_view(*old(m)).contains_key(k) && key_index_view(*old(m))[k]
                == q,
            None => !key_index_view(*old(m)).contains_key(k),
        },
{
    m.m.remove(&k)
}

/// Relies on `HashMap::clear`: every entry is dropped.
#[verifier::external_body]
pub fn ki_clear(m: &mut KeyIndex)
    ensures
        key_index_view(*final(m)) == empty_key_map(),
{
    m.m.clear()
}

/// Relies on `HashMap::reserve`: the entries stay as they are.
#[verifier::external_body]
pub fn ki_reserve(m: &mut KeyIndex, additional: usize)
    ensures
        key_index_view(*final(m)) == key_index_view(*old(m)),
{
    m.m.reserve(additional)
}

/// Relies on `HashMap::shrink_to_fit`: the entries stay as they are.
#[verifier::external_body]
pub fn ki_shrink_to_fit(m: &mut KeyIndex)
    ensures
        key_index_view(*final(m)) == key_index_view(*old(m)),
{
    m.m.shrink_to_fit()
}

/// Relies on `HashMap::iter`: every entry exactly once, in no particular
/// order.
#[verifier::external_body]
pub fn ki_pairs(m: &KeyIndex) -> (r: Vec<(u64, Pos)>)
    ensures
        r@.len() == key_index_view(*m).dom().len(),
        forall|i: int|
            0 <= i < r@.len() ==> key_index_view(*m).contains_key(#[trigger] r@[i].0)
                && key_index_view(*m)[r@[i].0] == r@[i].1,
        forall|i: int, j: int| 0 <= i < j < r@.len() ==> r@[i].0 != r@[j].0,
        forall|k: u64| #[trigger] key_index_view(*m).contains_key(k) ==> exists|i: int|
            0 <= i < r@.len() && #[trigger] r@[i].0 == k,
{
    m.m.iter().map(|e| (*e.0, *e.1)).collect()
}

/// Relies on `HashMap::drain`: every entry leaves the table exactly once,
/// in no particular order.
#[verifier::external_body]
pub fn ki_drain(m: &mut KeyIndex) -> (r: Vec<(u64, Pos)>)
    ensures
        key_index_view(*final(m)) == empty_key_map(),
        r@.len() == key_index_view(*old(m)).dom().len() && key_index_view(*old(m)).dom().finite(),
        forall|i: int|
            0 <= i < r@.len() ==> key_index_view(*old(m)).contains_key(#[trigger] r@[i].0)
                && key_index_view(*old(m))[r@[i].0] == r@[i].1,
        forall|i: int, j: int| 0 <= i < j < r@.len() ==> r@[i].0 != r@[j].0,
        forall|k: u64|
            #[trigger] key_index_view(*old(m)).contains_key(k) ==> exists|i: int|
                0 <= i < r@.len() && #[trigger] r@[i].0 == k,
{
    m.m.drain().collect()
}

} // verus!
