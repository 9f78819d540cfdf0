//! The hash maps of the HashLife cache (`ahash::AHashMap`), seen through
//! their contents.

use vstd::prelude::*;
use ahash::AHashMap;

verus! {

#[verifier::external_type_specification]
#[verifier::external_body]
pub struct ExRandomState(ahash::RandomState);

#[verifier::external_type_specification]
#[verifier::external_body]
#[verifier::reject_recursive_types(K)]
#[verifier::reject_recursive_types(V)]
#[verifier::reject_recursive_types(S)]
pub struct ExAHashMap<K, V, S>(AHashMap<K, V, S>);

/// What the canonicalization map (children -> node) holds.
pub uninterp spec fn arena_map(m: AHashMap<[u32; 4], u32>) -> Map<[u32; 4], u32>;

/// What a `(node, level) -> node` cache holds.
pub uninterp spec fn pair_map(m: AHashMap<(u32, u32), u32>) -> Map<(u32, u32), u32>;

/// What the `(node, depth) -> population` cache holds.
pub uninterp spec fn count_map(m: AHashMap<(u32, u32), usize>) -> Map<(u32, u32), usize>;

/// What a packed-key `u64 -> node` cache holds.
pub uninterp spec fn slow_map(m: AHashMap<u64, u32>) -> Map<u64, u32>;

/// Whether byte `i` of a mark vector is set.
pub open spec fn marked(live: Seq<u8>, i: u32) -> bool {
    (i as int) < live.len() && live[i as int] != 0
}

/// `marked` in executable form.
pub fn is_marked(live: &Vec<u8>, i: u32) -> (r: bool)
    ensures
        r == marked(live@, i),
{
    (i as usize) < live.len() && live[i as usize] != 0
}

/// A `(node, level) -> node` entry survives a collection: both nodes are marked.
pub fn pair_live(live: &Vec<u8>, k: &(u32, u32), v: &u32) -> (r: bool)
    ensures
        r == (marked(live@, k.0) && marked(live@, *v)),
{
    is_marked(live, k.0) && is_marked(live, *v)
}

/// A packed-key entry survives a collection: its key node (the high 32 bits)
/// and its value node are both marked.
pub fn slow_live(live: &Vec<u8>, k: &u64, v: &u32) -> (r: bool)
    ensures
        r == (marked(live@, slow_key_node(*k)) && marked(live@, *v)),
{
    let node = (*k / 0x1_0000_0000) as u32;
    is_marked(live, node) && is_marked(live, *v)
}

// ---- canonicalization map -------------------------------------------------

/// `AHashMap::with_capacity`: an empty map.
#[verifier::external_body]
pub fn arena_with_capacity(capacity: usize) -> (m: AHashMap<[u32; 4], u32>)
    ensures
        arena_map(m).dom().is_empty(),
{
    AHashMap::with_capacity(capacity)
}

/// `AHashMap::get`: the value stored under `key`, if any.
#[verifier::external_body]
pub fn arena_get(m: &AHashMap<[u32; 4], u32>, key: &[u32; 4]) -> (r: Option<u32>)
    ensures
        r == (if arena_map(*m).dom().contains(*key) { Some(arena_map(*m)[*key]) } else { None }),
{
    m.get(key).copied()
}

/// `AHashMap::insert`: stores `v` under `key`.
#[verifier::external_body]
pub fn arena_insert(m: &mut AHashMap<[u32; 4], u32>, key: [u32; 4], v: u32)
    ensures
        arena_map(*final(m)) == arena_map(*old(m)).insert(key, v),
{
    m.insert(key, v);
}

/// `HashMap::retain` (through `Deref`): keeps the entries whose node is marked
/// in `live`.
#[verifier::external_body]
pub fn arena_retain_marked(m: &mut AHashMap<[u32; 4], u32>, live: &Vec<u8>)
    ensures
        arena_map(*final(m)) == arena_map(*old(m)).restrict(
            arena_map(*old(m)).dom().filter(|k: [u32; 4]| marked(live@, arena_map(*old(m))[k])),
        ),
{
    m.retain(|_, v| is_marked(live, *v));
}

/// `HashMap::shrink_to_fit` (through `AHashMap`'s `Deref`): capacity only.
#[verifier::external_body]
pub fn arena_shrink(m: &mut AHashMap<[u32; 4], u32>)
    ensures
        arena_map(*final(m)) == arena_map(*old(m)),
{
    m.shrink_to_fit();
}

// ---- (node, level) -> node cache -------------------------------------------

/// `AHashMap::new`: an empty map.
#[verifier::external_body]
pub fn pair_new() -> (m: AHashMap<(u32, u32), u32>)
    ensures
        pair_map(m).dom().is_empty(),
{
    AHashMap::new()
}

/// `AHashMap::get`: the value stored under `key`, if any.
#[verifier::external_body]
pub fn pair_get(m: &AHashMap<(u32, u32), u32>, key: (u32, u32)) -> (r: Option<u32>)
    ensures
        r == (if pair_map(*m).dom().contains(key) { Some(pair_map(*m)[key]) } else { None }),
{
    m.get(&key).copied()
}

/// `AHashMap::insert`: stores `v` under `key`.
#[verifier::external_body]
pub fn pair_insert(m: &mut AHashMap<(u32, u32), u32>, key: (u32, u32), v: u32)
    ensures
        pair_map(*final(m)) == pair_map(*old(m)).insert(key, v),
{
    m.insert(key, v);
}

/// `HashMap::retain` (through `Deref`): keeps the entries whose key node and
/// value node are both marked in `live`.
#[verifier::external_body]
pub fn pair_retain_marked(m: &mut AHashMap<(u32, u32), u32>, live: &Vec<u8>)
    ensures
        pair_map(*final(m)) == pair_map(*old(m)).restrict(
            pair_map(*old(m)).dom().filter(
                |k: (u32, u32)| marked(live@, k.0) && marked(live@, pair_map(*old(m))[k]),
            ),
        ),
{
    m.retain(|k, v| pair_live(live, k, v));
}

/// `HashMap::shrink_to_fit` (through `Deref`): capacity only.
#[verifier::external_body]
pub fn pair_shrink(m: &mut AHashMap<(u32, u32), u32>)
    ensures
        pair_map(*final(m)) == pair_map(*old(m)),
{
    m.shrink_to_fit();
}

// ---- (node, depth) -> population cache --------------------------------------

/// `AHashMap::new`: an empty map.
#[verifier::external_body]
pub fn count_new() -> (m: AHashMap<(u32, u32), usize>)
    ensures
        count_map(m).dom().is_empty(),
{
    AHashMap::new()
}

/// `AHashMap::get`: the value stored under `key`, if any.
#[verifier::external_body]
pub fn count_get(m: &AHashMap<(u32, u32), usize>, key: (u32, u32)) -> (r: Option<usize>)
    ensures
        r == (if count_map(*m).dom().contains(key) { Some(count_map(*m)[key]) } else { None }),
{
    m.get(&key).copied()
}

/// `AHashMap::insert`: stores `v` under `key`.
#[verifier::external_body]
pub fn count_insert(m: &mut AHashMap<(u32, u32), usize>, key: (u32, u32), v: usize)
    ensures
        count_map(*final(m)) == count_map(*old(m)).insert(key, v),
{
    m.insert(key, v);
}

/// `HashMap::retain` (through `Deref`): keeps the entries whose key node is
/// marked in `live`.
#[verifier::external_body]
pub fn count_retain_marked(m: &mut AHashMap<(u32, u32), usize>, live: &Vec<u8>)
    ensures
        count_map(*final(m)) == count_map(*old(m)).restrict(
            count_map(*old(m)).dom().filter(|k: (u32, u32)| marked(live@, k.0)),
        ),
{
    m.retain(|k, _| is_marked(live, k.0));
}

/// `HashMap::shrink_to_fit` (through `Deref`): capacity only.
#[verifier::external_body]
pub fn count_shrink(m: &mut AHashMap<(u32, u32), usize>)
    ensures
        count_map(*final(m)) == count_map(*old(m)),
{
    m.shrink_to_fit();
}

// ---- packed-key slow caches --------------------------------------------------

/// The node held in the high 32 bits of a slow-cache key.
pub open spec fn slow_key_node(key: u64) -> u32 {
    (key / 0x1_0000_0000) as u32
}

/// `AHashMap::new`: an empty map.
#[verifier::external_body]
pub fn slow_new() -> (m: AHashMap<u64, u32>)
    ensures
        slow_map(m).dom().is_empty(),
{
    AHashMap::new()
}

/// `AHashMap::get`: the value stored under `key`, if any.
#[verifier::external_body]
pub fn slow_get(m: &AHashMap<u64, u32>, key: u64) -> (r: Option<u32>)
    ensures
        r == (if slow_map(*m).dom().contains(key) { Some(slow_map(*m)[key]) } else { None }),
{
    m.get(&key).copied()
}

/// `AHashMap::insert`: stores `v` under `key`.
#[verifier::external_body]
pub fn slow_insert(m: &mut AHashMap<u64, u32>, key: u64, v: u32)
    ensures
        slow_map(*final(m)) == slow_map(*old(m)).insert(key, v),
{
    m.insert(key, v);
}

/// `AHashMap::remove`: drops the entry of `key`.
#[verifier::external_body]
pub fn slow_remove(m: &mut AHashMap<u64, u32>, key: u64)
    ensures
        slow_map(*final(m)) == slow_map(*old(m)).remove(key),
{
    m.remove(&key);
}

/// `HashMap::len` (through `Deref`): the number of entries.
#[verifier::external_body]
pub fn slow_len(m: &AHashMap<u64, u32>) -> (r: usize)
    ensures
        r == slow_map(*m).dom().len(),
{
    m.len()
}

/// `HashMap::clear` (through `Deref`): drops every entry.
#[verifier::external_body]
pub fn slow_clear(m: &mut AHashMap<u64, u32>)
    ensures
        slow_map(*final(m)).dom().is_empty(),
{
    m.clear();
}

/// `HashMap::keys` (through `Deref`), copied out: each key once, in any order.
#[verifier::external_body]
pub fn slow_keys(m: &AHashMap<u64, u32>) -> (r: Vec<u64>)
    ensures
        r@.to_set() == slow_map(*m).dom(),
        r@.no_duplicates(),
{
    m.keys().copied().collect()
}

/// `HashMap::retain` (through `Deref`): keeps the entries whose key node and
/// value node are both marked in `live`.
#[verifier::external_body]
pub fn slow_retain_marked(m: &mut AHashMap<u64, u32>, live: &Vec<u8>)
    ensures
        slow_map(*final(m)) == slow_map(*old(m)).restrict(
            slow_map(*old(m)).dom().filter(
                |k: u64| marked(live@, slow_key_node(k)) && marked(live@, slow_map(*old(m))[k]),
            ),
        ),
{
    m.retain(|k, v| slow_live(live, k, v));
}

/// `HashMap::shrink_to_fit` (through `Deref`): capacity only.
#[verifier::external_body]
pub fn slow_shrink(m: &mut AHashMap<u64, u32>)
    ensures
        slow_map(*final(m)) == slow_map(*old(m)),
{
    m.shrink_to_fit();
}

} // verus!
