//! The least-recently-used map of the `lru` crate, as the cache uses it.

use lru::LruCache;
use solana_clock::Epoch;
use vstd::prelude::*;

use crate::entries::{entry_of, stored, used, EntryView, StakedValidatorsCacheEntry};

verus! {

/// `lru::LruCache`, a map of bounded size. Its contents are spoken of by [`lru_entries`] and its
/// bound by [`lru_capacity`].
#[verifier::external_type_specification]
#[verifier::external_body]
#[verifier::reject_recursive_types(K)]
#[verifier::reject_recursive_types(V)]
#[verifier::reject_recursive_types(S)]
pub struct ExLruCache<K, V, S>(lru::LruCache<K, V, S>);

/// `lru::DefaultHasher`, which a `lru::LruCache` hashes its keys with.
#[verifier::external_type_specification]
#[verifier::external_body]
pub struct ExDefaultHasher(lru::DefaultHasher);

/// The entries of `cache` with their epochs, from the most to the least recently used.
pub uninterp spec fn lru_entries(
    cache: LruCache<Epoch, StakedValidatorsCacheEntry>,
) -> Seq<(Epoch, EntryView)>;

/// The number of entries that `cache` was made to hold at most.
pub uninterp spec fn lru_capacity(cache: LruCache<Epoch, StakedValidatorsCacheEntry>) -> nat;

/// `LruCache::new`. Trusted: that the cache is empty and holds at most `capacity` entries. It
/// allocates its table at once, and panics where the size of the table overflows.
#[verifier::external_body]
pub(crate) fn lru_new(capacity: usize) -> (cache: LruCache<Epoch, StakedValidatorsCacheEntry>)
    requires
        capacity <= usize::MAX / 128,
    ensures
        lru_entries(cache) == Seq::<(Epoch, EntryView)>::empty(),
        lru_capacity(cache) == capacity,
{
    LruCache::new(capacity)
}

/// `LruCache::get`. Trusted: that it returns the entry for `epoch`, where there is one, and makes
/// it the most recently used; and that nothing else changes.
#[verifier::external_body]
pub(crate) fn lru_get(
    cache: &mut LruCache<Epoch, StakedValidatorsCacheEntry>,
    epoch: Epoch,
) -> (entry: Option<&StakedValidatorsCacheEntry>)
    ensures
        entry is Some <==> entry_of(lru_entries(*old(cache)), epoch) is Some,
        entry is Some ==> entry_of(lru_entries(*old(cache)), epoch) == Some(entry->0@),
        lru_entries(*final(cache)) == used(lru_entries(*old(cache)), epoch),
        lru_capacity(*final(cache)) == lru_capacity(*old(cache)),
{
    cache.get(&epoch)
}

/// `LruCache::push`. Trusted: that `entry` becomes the most recently used one, in place of the
/// entry for the same epoch where there is one, else, where the cache is full, in place of the
/// least recently used one; that it returns what had to go; and that a cache of capacity zero
/// takes nothing.
#[verifier::external_body]
pub(crate) fn lru_push(
    cache: &mut LruCache<Epoch, StakedValidatorsCacheEntry>,
    epoch: Epoch,
    entry: StakedValidatorsCacheEntry,
) -> (replaced: Option<(Epoch, StakedValidatorsCacheEntry)>)
    ensures
        lru_entries(*final(cache)) == stored(
            lru_entries(*old(cache)),
            lru_capacity(*old(cache)),
            epoch,
            entry@,
        ),
        lru_capacity(*final(cache)) == lru_capacity(*old(cache)),
        match entry_of(lru_entries(*old(cache)), epoch) {
            Some(previous) => replaced matches Some((key, value)) && key == epoch && value@
                == previous,
            None => if lru_capacity(*old(cache)) > 0 && lru_entries(*old(cache)).len()
                == lru_capacity(*old(cache)) {
                replaced matches Some((key, value)) && (key, value@) == lru_entries(
                    *old(cache),
                ).last()
            } else {
                replaced is None
            },
        },
{
    cache.push(epoch, entry)
}

/// `LruCache::contains`. Trusted: that it says whether there is an entry for `epoch`.
#[verifier::external_body]
pub(crate) fn lru_contains(
    cache: &LruCache<Epoch, StakedValidatorsCacheEntry>,
    epoch: Epoch,
) -> (contained: bool)
    ensures
        contained <==> entry_of(lru_entries(*cache), epoch) is Some,
{
    cache.contains(&epoch)
}

/// `LruCache::len`. Trusted: that it returns the number of entries.
#[verifier::external_body]
pub(crate) fn lru_len(cache: &LruCache<Epoch, StakedValidatorsCacheEntry>) -> (len: usize)
    ensures
        len == lru_entries(*cache).len(),
{
    cache.len()
}

/// `LruCache::is_empty`. Trusted: that it says whether there is no entry.
#[verifier::external_body]
pub(crate) fn lru_is_empty(cache: &LruCache<Epoch, StakedValidatorsCacheEntry>) -> (empty: bool)
    ensures
        empty <==> lru_entries(*cache).len() == 0,
{
    cache.is_empty()
}

} // verus!
