//! The least-recently-used cache of the `lru` crate, as far as placements need it.
use lru::{DefaultHasher, LruCache};
use std::num::NonZeroUsize;
use vstd::prelude::*;

verus! {

/// `lru::LruCache`.
#[verifier::external_type_specification]
#[verifier::external_body]
#[verifier::reject_recursive_types(K)]
#[verifier::reject_recursive_types(V)]
#[verifier::reject_recursive_types(S)]
pub struct ExLruCache<K, V, S>(LruCache<K, V, S>);

/// `lru::DefaultHasher`.
#[verifier::external_type_specification]
#[verifier::external_body]
pub struct ExDefaultHasher(DefaultHasher);

/// A cache entry: a key, and a worker's id and rank.
pub type Entry = (Seq<char>, (u64, u32));

/// The entries of a cache, the most recently used first.
pub uninterp spec fn lru_entries(
    cache: LruCache<String, (u64, u32), DefaultHasher>,
) -> Seq<(Seq<char>, (u64, u32))>;

/// The number of entries that a cache was made for.
pub uninterp spec fn lru_capacity(cache: LruCache<String, (u64, u32), DefaultHasher>) -> nat;

/// Whether there is an entry for a key.
pub open spec fn has_entry(entries: Seq<Entry>, key: Seq<char>) -> bool {
    exists|at: int| 0 <= at < entries.len() && (#[trigger] entries[at]).0 == key
}

/// Where the entry of a key is.
pub open spec fn entry_at(entries: Seq<Entry>, key: Seq<char>) -> int {
    choose|at: int| 0 <= at < entries.len() && (#[trigger] entries[at]).0 == key
}

/// The value of a key.
pub open spec fn value_of(entries: Seq<Entry>, key: Seq<char>) -> Option<(u64, u32)> {
    if has_entry(entries, key) {
        Some(entries[entry_at(entries, key)].1)
    } else {
        None
    }
}

/// The entries without that of a key.
pub open spec fn without_entry(entries: Seq<Entry>, key: Seq<char>) -> Seq<Entry> {
    if has_entry(entries, key) {
        entries.remove(entry_at(entries, key))
    } else {
        entries
    }
}

/// The entries with that of a key moved to the front.
pub open spec fn with_entry_used(entries: Seq<Entry>, key: Seq<char>) -> Seq<Entry> {
    if has_entry(entries, key) {
        seq![entries[entry_at(entries, key)]] + without_entry(entries, key)
    } else {
        entries
    }
}

/// The entries with a key's value set and in front. A new key takes the place of the last entry
/// where there are `capacity` of them.
pub open spec fn with_entry_put(
    entries: Seq<Entry>,
    capacity: nat,
    key: Seq<char>,
    value: (u64, u32),
) -> Seq<Entry> {
    let rest = if !has_entry(entries, key) && entries.len() == capacity {
        entries.drop_last()
    } else {
        without_entry(entries, key)
    };
    seq![(key, value)] + rest
}

/// `LruCache::new`: an empty cache for the given number of entries. It allocates for all of them
/// at once; the bound keeps the size of that allocation representable.
#[verifier::external_body]
pub(crate) fn lru_new(capacity: usize) -> (cache: LruCache<String, (u64, u32), DefaultHasher>)
    requires
        0 < capacity,
        capacity * 128 <= usize::MAX,
    ensures
        lru_entries(cache) == Seq::<(Seq<char>, (u64, u32))>::empty(),
        lru_capacity(cache) == capacity,
{
    LruCache::new(NonZeroUsize::new(capacity).unwrap())
}

/// `LruCache::get`: the value of a key, whose entry becomes the most recently used.
#[verifier::external_body]
pub(crate) fn lru_get(
    cache: &mut LruCache<String, (u64, u32), DefaultHasher>,
    key: &str,
) -> (value: Option<(u64, u32)>)
    ensures
        value == value_of(lru_entries(*old(cache)), key@),
        lru_entries(*final(cache)) == with_entry_used(lru_entries(*old(cache)), key@),
        lru_capacity(*final(cache)) == lru_capacity(*old(cache)),
{
    cache.get(key).copied()
}

/// `LruCache::put`: sets a key's value and makes its entry the most recently used. For a new key
/// in a full cache the least recently used entry leaves. The result is the key's value before.
#[verifier::external_body]
pub(crate) fn lru_put(
    cache: &mut LruCache<String, (u64, u32), DefaultHasher>,
    key: String,
    value: (u64, u32),
) -> (before: Option<(u64, u32)>)
    ensures
        before == value_of(lru_entries(*old(cache)), key@),
        lru_entries(*final(cache)) == with_entry_put(
            lru_entries(*old(cache)),
            lru_capacity(*old(cache)),
            key@,
            value,
        ),
        lru_capacity(*final(cache)) == lru_capacity(*old(cache)),
{
    cache.put(key, value)
}

/// `LruCache::pop`: takes a key's entry out.
#[verifier::external_body]
pub(crate) fn lru_pop(
    cache: &mut LruCache<String, (u64, u32), DefaultHasher>,
    key: &str,
) -> (value: Option<(u64, u32)>)
    ensures
        value == value_of(lru_entries(*old(cache)), key@),
        lru_entries(*final(cache)) == without_entry(lru_entries(*old(cache)), key@),
        lru_capacity(*final(cache)) == lru_capacity(*old(cache)),
{
    cache.pop(key)
}

/// `LruCache::len`: the number of entries.
#[verifier::external_body]
pub(crate) fn lru_len(cache: &LruCache<String, (u64, u32), DefaultHasher>) -> (count: usize)
    ensures
        count == lru_entries(*cache).len(),
{
    cache.len()
}

} // verus!
