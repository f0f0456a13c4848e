//! The bounded table of resident keys, kept in least-recently-used order by
//! the `lru` crate.
//!
//! The crate's cache is opaque here. What it holds and the bound it was made
//! with are named, and each of its methods that the pool calls has a wrapper
//! whose contract says, over those names, what the method does.

use lru::LruCache;
use std::num::NonZeroUsize;
use vstd::prelude::*;

verus! {

/// `lru::LruCache`, a cache with a bound on its entries that drops the
/// least recently used entry for a new one. Nothing inside it is seen here.
#[verifier::external_type_specification]
#[verifier::external_body]
#[verifier::reject_recursive_types(K)]
#[verifier::reject_recursive_types(V)]
#[verifier::reject_recursive_types(S)]
pub struct ExLruCache<K, V, S>(LruCache<K, V, S>);

/// `lru::DefaultHasher`, the hasher of a cache made by `LruCache::new`.
#[verifier::external_type_specification]
#[verifier::external_body]
pub struct ExDefaultHasher(lru::DefaultHasher);

/// The table of resident keys: each key with the number of its destination.
pub type Residents = LruCache<Vec<u8>, usize>;

/// An entry of the table, as mathematics: a key and the number of its
/// destination.
pub type Entry = (Seq<u8>, usize);

/// The entries that a cache holds, the most recently used first.
pub uninterp spec fn lru_entries(cache: Residents) -> Seq<Entry>;

/// The number of entries that a cache was made to hold at most.
pub uninterp spec fn lru_capacity(cache: Residents) -> nat;

/// Whether `i` is the first position of `entries` that holds `key`.
pub open spec fn first_at(entries: Seq<Entry>, key: Seq<u8>, i: int) -> bool {
    &&& 0 <= i < entries.len()
    &&& entries[i].0 == key
    &&& forall|j: int| 0 <= j < i ==> (#[trigger] entries[j]).0 != key
}

/// Whether some entry holds `key`.
pub open spec fn holds_key(entries: Seq<Entry>, key: Seq<u8>) -> bool {
    exists|i: int| 0 <= i < entries.len() && (#[trigger] entries[i]).0 == key
}

/// The entries after the one at `i` has become the most recently used.
pub open spec fn promoted(entries: Seq<Entry>, i: int) -> Seq<Entry> {
    seq![entries[i]] + entries.remove(i)
}

/// The entries that stay when a new one comes in under the bound `cap`: all
/// of them, or all but the least recently used where the cache is full.
pub open spec fn room_made(entries: Seq<Entry>, cap: nat) -> Seq<Entry> {
    if entries.len() == cap {
        entries.drop_last()
    } else {
        entries
    }
}

/// `LruCache::new`: an empty cache that holds at most `cap` entries.
#[verifier::external_body]
pub(crate) fn lru_new(cap: usize) -> (cache: Residents)
    requires
        cap > 0,
    ensures
        lru_entries(cache) == Seq::<Entry>::empty(),
        lru_capacity(cache) == cap,
{
    LruCache::new(NonZeroUsize::new(cap).unwrap())
}

/// `LruCache::len`: the number of entries held.
#[verifier::external_body]
pub(crate) fn lru_len(cache: &Residents) -> (n: usize)
    ensures
        n == lru_entries(*cache).len(),
{
    cache.len()
}

/// `LruCache::contains`: whether the key has an entry. The order of use
/// stays as it is.
#[verifier::external_body]
pub(crate) fn lru_contains(cache: &Residents, key: &[u8]) -> (found: bool)
    ensures
        found == holds_key(lru_entries(*cache), key@),
{
    cache.contains(key)
}

/// `LruCache::get`, with the value copied out: the value of the key's entry,
/// which becomes the most recently used; `None` and no change where the key
/// has no entry.
#[verifier::external_body]
pub(crate) fn lru_get(cache: &mut Residents, key: &[u8]) -> (value: Option<usize>)
    ensures
        lru_capacity(*final(cache)) == lru_capacity(*old(cache)),
        value is Some == holds_key(lru_entries(*old(cache)), key@),
        value is None ==> lru_entries(*final(cache)) == lru_entries(*old(cache)),
        forall|i: int| #[trigger]
            first_at(lru_entries(*old(cache)), key@, i) ==> value == Some(
                lru_entries(*old(cache))[i].1,
            ) && lru_entries(*final(cache)) == promoted(lru_entries(*old(cache)), i),
{
    cache.get(key).copied()
}

/// `LruCache::pop_lru`: takes the least recently used entry out and returns
/// it; `None` and no change where the cache is empty.
#[verifier::external_body]
pub(crate) fn lru_pop_lru(cache: &mut Residents) -> (popped: Option<(Vec<u8>, usize)>)
    ensures
        lru_capacity(*final(cache)) == lru_capacity(*old(cache)),
        match popped {
            Some((key, value)) => {
                &&& lru_entries(*old(cache)).len() > 0
                &&& (key@, value) == lru_entries(*old(cache)).last()
                &&& lru_entries(*final(cache)) == lru_entries(*old(cache)).drop_last()
            },
            None => {
                &&& lru_entries(*old(cache)).len() == 0
                &&& lru_entries(*final(cache)) == lru_entries(*old(cache))
            },
        },
{
    cache.pop_lru()
}

/// `LruCache::put`: the key's entry, with the new value, becomes the most
/// recently used. A key that had an entry keeps its place in the cache and
/// the old value is returned. For a new key the least recently used entry
/// leaves where the cache is full, and `None` is returned.
#[verifier::external_body]
pub(crate) fn lru_put(cache: &mut Residents, key: Vec<u8>, value: usize) -> (replaced: Option<usize>)
    ensures
        lru_capacity(*final(cache)) == lru_capacity(*old(cache)),
        replaced is Some == holds_key(lru_entries(*old(cache)), key@),
        replaced is None ==> lru_entries(*final(cache)) == seq![(key@, value)] + room_made(
            lru_entries(*old(cache)),
            lru_capacity(*old(cache)),
        ),
        forall|i: int| #[trigger]
            first_at(lru_entries(*old(cache)), key@, i) ==> replaced == Some(
                lru_entries(*old(cache))[i].1,
            ) && lru_entries(*final(cache)) == seq![(key@, value)] + lru_entries(
                *old(cache),
            ).remove(i),
{
    cache.put(key, value)
}

} // verus!
