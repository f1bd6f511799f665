//! The cache itself.

use lru::LruCache;
use solana_clock::{Epoch, Slot};
use vstd::prelude::*;

use crate::bank::BankForks;
use crate::entries::{
    entry_of, has_distinct_epochs, lemma_entry_at, lemma_entry_of, lemma_stored, lemma_used, stored,
    used, EntryView, StakedValidatorsCacheEntry,
};
use crate::gossip::ClusterInfo;
use crate::lru_store::{
    lru_capacity, lru_contains, lru_entries, lru_get, lru_is_empty, lru_len, lru_new, lru_push,
};
use crate::net::SocketAddr;
use crate::nodes::{is_socket_list, sockets_of};
use crate::port_override::AlpenglowPortOverride;
use crate::time::{Duration, Instant, MAX_INSTANT_NANOS};

verus! {

/// The state of a [`StakedValidatorsCache`].
#[verifier::ext_equal]
pub struct CacheView {
    /// The entries with their epochs, from the most to the least recently used
    pub entries: Seq<(Epoch, EntryView)>,
    /// How many entries the cache holds at most
    pub capacity: nat,
    /// How long an entry is good for
    pub ttl: Duration,
    /// Whether the running validator counts as one to send to
    pub include_self: bool,
    /// The modification time of the port override that was last acted on
    pub alpenglow_port_override_last_modified: Instant,
}

/// Whether an entry created at `creation_time` has outlived `ttl` at `access_time`. It has not at
/// the deadline itself. One whose deadline lies outside the clock's range always has.
pub open spec fn is_expired(creation_time: Instant, ttl: Duration, access_time: Instant) -> bool {
    ||| creation_time.nanos + ttl.nanos > MAX_INSTANT_NANOS
    ||| access_time.nanos > creation_time.nanos + ttl.nanos
}

impl CacheView {
    /// Whether no epoch has two entries and there are no more entries than there is room for.
    pub open spec fn wf(self) -> bool {
        &&& has_distinct_epochs(self.entries)
        &&& self.entries.len() <= self.capacity
    }

    /// The entry for `epoch`, where there is one.
    pub open spec fn entry(self, epoch: Epoch) -> Option<EntryView> {
        entry_of(self.entries, epoch)
    }

    /// Whether a read of `epoch` at `access_time` finds no entry, or one that has expired.
    pub open spec fn is_stale(self, epoch: Epoch, access_time: Instant) -> bool {
        match self.entry(epoch) {
            Some(entry) => is_expired(entry.creation_time, self.ttl, access_time),
            None => true,
        }
    }

    /// Whether the port override has changed since the cache last acted on it.
    pub open spec fn sees_new_override(self, port_override: Option<&AlpenglowPortOverride>) -> bool {
        port_override is Some && port_override->0.modified()
            != self.alpenglow_port_override_last_modified
    }

    /// The state after a use of the entry for `epoch`.
    pub open spec fn after_use(self, epoch: Epoch) -> CacheView {
        CacheView { entries: used(self.entries, epoch), ..self }
    }

    /// The state after `sockets` were put in for `epoch` at `update_time`.
    pub open spec fn after_refresh(
        self,
        epoch: Epoch,
        sockets: Seq<SocketAddr>,
        update_time: Instant,
    ) -> CacheView {
        CacheView {
            entries: stored(
                self.entries,
                self.capacity,
                epoch,
                EntryView { alpenglow_sockets: sockets, creation_time: update_time },
            ),
            ..self
        }
    }

    /// The state after the cache took note of the modification time of the port override, where
    /// there is one.
    pub open spec fn after_override(self, port_override: Option<&AlpenglowPortOverride>) -> CacheView {
        match port_override {
            Some(port_override) => CacheView {
                alpenglow_port_override_last_modified: port_override.modified(),
                ..self
            },
            None => self,
        }
    }

    /// Whether `sockets` is what the banks, gossip and the port override give for `epoch`.
    pub open spec fn is_current(
        self,
        sockets: Seq<SocketAddr>,
        epoch: Epoch,
        bank_forks: BankForks,
        cluster_info: ClusterInfo,
        port_override: Option<&AlpenglowPortOverride>,
    ) -> bool {
        is_socket_list(
            sockets,
            bank_forks.staked_nodes(epoch),
            self.include_self,
            cluster_info,
            port_override,
        )
    }

    /// What a read of `epoch` does to the cache and returns. Of a stale entry it works the sockets
    /// out anew and stores them; else it returns those of the entry. It tells which it did.
    pub open spec fn reads_epoch(
        self,
        epoch: Epoch,
        bank_forks: BankForks,
        cluster_info: ClusterInfo,
        port_override: Option<&AlpenglowPortOverride>,
        access_time: Instant,
        sockets: Seq<SocketAddr>,
        refreshed: bool,
        after: CacheView,
    ) -> bool {
        &&& refreshed == self.is_stale(epoch, access_time)
        &&& refreshed ==> {
            &&& self.is_current(sockets, epoch, bank_forks, cluster_info, port_override)
            &&& after == self.after_refresh(epoch, sockets, access_time)
        }
        &&& !refreshed ==> {
            &&& sockets == self.entry(epoch)->0.alpenglow_sockets
            &&& after == self.after_use(epoch)
        }
    }

    /// What a read of `slot` does to the cache and returns. It reads the epoch of the slot by the
    /// schedule of the working bank. Where the port override has changed, the sockets are worked
    /// out anew first, which the read does not tell: it then says that it refreshed nothing, unless
    /// even an entry made at the time of the access has expired.
    pub open spec fn reads_slot(
        self,
        slot: Slot,
        bank_forks: BankForks,
        cluster_info: ClusterInfo,
        port_override: Option<&AlpenglowPortOverride>,
        access_time: Instant,
        sockets: Seq<SocketAddr>,
        refreshed: bool,
        after: CacheView,
    ) -> bool {
        let epoch = bank_forks.working_bank.epoch_schedule.epoch_of(slot);
        if self.sees_new_override(port_override) {
            &&& refreshed == is_expired(access_time, self.ttl, access_time)
            &&& self.is_current(sockets, epoch, bank_forks, cluster_info, port_override)
            &&& after == self.after_override(port_override).after_refresh(
                epoch,
                sockets,
                access_time,
            )
        } else {
            self.reads_epoch(
                epoch,
                bank_forks,
                cluster_info,
                port_override,
                access_time,
                sockets,
                refreshed,
                after,
            )
        }
    }
}

/// Maintains the sockets associated with all staked validators over a number of epochs.
///
/// Entries live in a least-recently-used map of bounded size, keyed by epoch. The time at which
/// each was made is kept with it, and one that is read after the time to live has passed is worked
/// out anew.
pub struct StakedValidatorsCache {
    /// key: the epoch for which we have cached our staked validators list
    /// value: the cache entry
    cache: LruCache<Epoch, StakedValidatorsCacheEntry>,
    /// Time to live for cache entries
    ttl: Duration,
    /// Whether to include the running validator's socket address in cache entries
    include_self: bool,
    /// Timestamp of the last Alpenglow port override we read
    alpenglow_port_override_last_modified: Instant,
}

impl View for StakedValidatorsCache {
    type V = CacheView;

    closed spec fn view(&self) -> CacheView {
        CacheView {
            entries: lru_entries(self.cache),
            capacity: lru_capacity(self.cache),
            ttl: self.ttl,
            include_self: self.include_self,
            alpenglow_port_override_last_modified: self.alpenglow_port_override_last_modified,
        }
    }
}

impl StakedValidatorsCache {
    /// An empty cache, made at `now`.
    ///
    /// A map sized for `max_cache_size` entries is allocated at once, hence the bound.
    pub fn new(
        ttl: Duration,
        max_cache_size: usize,
        include_self: bool,
        now: Instant,
    ) -> (cache: StakedValidatorsCache)
        requires
            max_cache_size <= usize::MAX / 128,
        ensures
            cache@ == (CacheView {
                entries: Seq::empty(),
                capacity: max_cache_size as nat,
                ttl,
                include_self,
                alpenglow_port_override_last_modified: now,
            }),
            cache@.wf(),
    {
        StakedValidatorsCache {
            cache: lru_new(max_cache_size),
            ttl,
            include_self,
            alpenglow_port_override_last_modified: now,
        }
    }

    /// The epoch of `slot` by the schedule of the working bank.
    pub fn cur_epoch(bank_forks: &BankForks, slot: Slot) -> (epoch: Epoch)
        requires
            bank_forks.working_bank.epoch_schedule.covers(slot),
        ensures
            epoch == bank_forks.working_bank.epoch_schedule.epoch_of(slot),
    {
        bank_forks.working_bank.epoch_schedule.get_epoch(slot)
    }

    /// Works out the sockets for `epoch` and stores them as of `update_time`.
    pub fn refresh_cache_entry(
        &mut self,
        epoch: Epoch,
        bank_forks: &BankForks,
        cluster_info: &ClusterInfo,
        port_override: Option<&AlpenglowPortOverride>,
        update_time: Instant,
    )
        ensures
            exists|sockets: Seq<SocketAddr>|
                {
                    &&& #[trigger] old(self)@.is_current(
                        sockets,
                        epoch,
                        *bank_forks,
                        *cluster_info,
                        port_override,
                    )
                    &&& final(self)@ == old(self)@.after_refresh(epoch, sockets, update_time)
                },
    {
        let alpenglow_sockets = match bank_forks.epoch_staked_nodes(epoch) {
            Some(staked_nodes) => sockets_of(
                staked_nodes,
                self.include_self,
                cluster_info,
                port_override,
            ),
            None => sockets_of(&Vec::new(), self.include_self, cluster_info, port_override),
        };
        let ghost sockets = alpenglow_sockets@;
        let _replaced = lru_push(
            &mut self.cache,
            epoch,
            StakedValidatorsCacheEntry { alpenglow_sockets, creation_time: update_time },
        );
        assert(old(self)@.is_current(sockets, epoch, *bank_forks, *cluster_info, port_override));
    }

    /// Whether the port override has changed since the cache last acted on it.
    pub fn has_new_override(&self, port_override: Option<&AlpenglowPortOverride>) -> (changed: bool)
        ensures
            changed == self@.sees_new_override(port_override),
            changed <==> port_override is Some && port_override->0.modified()
                != self@.alpenglow_port_override_last_modified,
    {
        match port_override {
            Some(alpenglow_port_override) => alpenglow_port_override.has_new_override(
                self.alpenglow_port_override_last_modified,
            ),
            None => false,
        }
    }

    /// Whether the cache has to be updated for `epoch`, which it has to if we either:
    ///
    /// (1) have a cache entry that has expired
    /// (2) have no existing cache entry
    ///
    /// The banks and gossip matter to a read only where this holds or the port override is new.
    pub fn needs_refresh(&mut self, epoch: Epoch, access_time: Instant) -> (refresh_cache: bool)
        ensures
            refresh_cache == old(self)@.is_stale(epoch, access_time),
            (forall|i: int|
                0 <= i < old(self)@.entries.len() ==> (#[trigger] old(self)@.entries[i]).0
                    != epoch) ==> refresh_cache,
            forall|i: int|
                0 <= i < old(self)@.entries.len() && has_distinct_epochs(old(self)@.entries) && (
                #[trigger] old(self)@.entries[i]).0 == epoch ==> refresh_cache == (
                old(self)@.entries[i].1.creation_time.nanos + old(self)@.ttl.nanos
                    > 9_223_372_036_854_775_807_999_999_999 || access_time.nanos
                    > old(self)@.entries[i].1.creation_time.nanos + old(self)@.ttl.nanos),
            final(self)@ == old(self)@.after_use(epoch),
    {
        proof {
            lemma_entry_of(old(self)@.entries, epoch);
            if has_distinct_epochs(old(self)@.entries) {
                assert forall|i: int|
                    0 <= i < old(self)@.entries.len() && (#[trigger] old(self)@.entries[i]).0
                        == epoch implies old(self)@.entry(epoch) == Some(
                    old(self)@.entries[i].1,
                ) by {
                    lemma_entry_at(old(self)@.entries, i);
                }
            }
        }
        match lru_get(&mut self.cache, epoch) {
            Some(entry) => match entry.creation_time.checked_add(self.ttl) {
                Some(deadline) => access_time.nanos > deadline.nanos,
                None => true,
            },
            None => true,
        }
    }

    /// The sockets of the staked validators in the epoch of `slot`, and whether they had to be
    /// worked out for want of an entry that was still good.
    pub fn get_staked_validators_by_slot(
        &mut self,
        slot: Slot,
        bank_forks: &BankForks,
        cluster_info: &ClusterInfo,
        port_override: Option<&AlpenglowPortOverride>,
        access_time: Instant,
    ) -> (read: (&[SocketAddr], bool))
        requires
            old(self)@.wf(),
            old(self)@.capacity > 0,
            bank_forks.working_bank.epoch_schedule.covers(slot),
        ensures
            final(self)@.wf(),
            old(self)@.reads_slot(
                slot,
                *bank_forks,
                *cluster_info,
                port_override,
                access_time,
                read.0@,
                read.1,
                final(self)@,
            ),
    {
        let epoch = Self::cur_epoch(bank_forks, slot);
        // Check if the port override has a different last_modified.
        // Immediately refresh the cache if it does.
        if self.has_new_override(port_override) {
            if let Some(alpenglow_port_override) = port_override {
                self.alpenglow_port_override_last_modified = alpenglow_port_override.last_modified();
                let ghost noted = self@;
                self.refresh_cache_entry(
                    epoch,
                    bank_forks,
                    cluster_info,
                    port_override,
                    access_time,
                );
                proof {
                    let sockets = choose|sockets: Seq<SocketAddr>|
                        {
                            &&& #[trigger] noted.is_current(
                                sockets,
                                epoch,
                                *bank_forks,
                                *cluster_info,
                                port_override,
                            )
                            &&& self@ == noted.after_refresh(epoch, sockets, access_time)
                        };
                    let entry = EntryView {
                        alpenglow_sockets: sockets,
                        creation_time: access_time,
                    };
                    lemma_stored(noted.entries, noted.capacity, epoch, entry);
                }
            }
        }
        self.get_staked_validators_by_epoch(
            epoch,
            bank_forks,
            cluster_info,
            port_override,
            access_time,
        )
    }

    /// The sockets of the staked validators in `epoch`, and whether they had to be worked out for
    /// want of an entry that was still good.
    pub fn get_staked_validators_by_epoch(
        &mut self,
        epoch: Epoch,
        bank_forks: &BankForks,
        cluster_info: &ClusterInfo,
        port_override: Option<&AlpenglowPortOverride>,
        access_time: Instant,
    ) -> (read: (&[SocketAddr], bool))
        requires
            old(self)@.wf(),
            old(self)@.capacity > 0,
        ensures
            final(self)@.wf(),
            old(self)@.reads_epoch(
                epoch,
                *bank_forks,
                *cluster_info,
                port_override,
                access_time,
                read.0@,
                read.1,
                final(self)@,
            ),
    {
        let refresh_cache = self.needs_refresh(epoch, access_time);
        let ghost looked_up = self@;
        proof {
            lemma_used(old(self)@.entries, epoch);
        }
        if refresh_cache {
            self.refresh_cache_entry(epoch, bank_forks, cluster_info, port_override, access_time);
            proof {
                let sockets = choose|sockets: Seq<SocketAddr>|
                    {
                        &&& #[trigger] looked_up.is_current(
                            sockets,
                            epoch,
                            *bank_forks,
                            *cluster_info,
                            port_override,
                        )
                        &&& self@ == looked_up.after_refresh(epoch, sockets, access_time)
                    };
                let entry = EntryView { alpenglow_sockets: sockets, creation_time: access_time };
                lemma_stored(old(self)@.entries, old(self)@.capacity, epoch, entry);
            }
        }
        // Unwrapping is fine here, since an entry for the epoch has just been found or stored.
        let entry = lru_get(&mut self.cache, epoch).unwrap();
        (entry.alpenglow_sockets.as_slice(), refresh_cache)
    }

    /// Whether there is an entry for `epoch`.
    pub fn contains(&self, epoch: Epoch) -> (contained: bool)
        ensures
            contained <==> self@.entry(epoch) is Some,
            contained <==> exists|i: int|
                0 <= i < self@.entries.len() && (#[trigger] self@.entries[i]).0 == epoch,
    {
        proof {
            lemma_entry_of(self@.entries, epoch);
        }
        lru_contains(&self.cache, epoch)
    }

    /// The number of entries.
    pub fn len(&self) -> (len: usize)
        ensures
            len == self@.entries.len(),
    {
        lru_len(&self.cache)
    }

    /// Whether there is no entry.
    pub fn is_empty(&self) -> (empty: bool)
        ensures
            empty <==> self@.entries.len() == 0,
    {
        lru_is_empty(&self.cache)
    }
}

} // verus!
