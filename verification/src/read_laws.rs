//! What a read of the cache does and returns, said of the numbers, the sequence of entries and the
//! tables of the banks themselves.
//!
//! The entries of a cache stand in the order of their last use, the latest first. The port override
//! is new to a cache where one is handed to the read and its modification time is not the one that
//! the cache has noted.

use solana_clock::{Epoch, Slot};
use vstd::arithmetic::div_mod::lemma_fundamental_div_mod_converse;
use vstd::prelude::*;

use crate::bank::{BankForks, EpochSchedule};
use crate::cache::CacheView;
use crate::entries::{
    lemma_entry_at, lemma_entry_of, lemma_used, lemma_without_is_removal, EntryView,
};
use crate::gossip::ClusterInfo;
use crate::laws::{law_unknown_epoch, law_warmup_epochs, Read};
use crate::net::SocketAddr;
use crate::nodes::is_socket_list;
use crate::port_override::AlpenglowPortOverride;
use crate::time::Instant;

verus! {

/// The invariant of the cache in full: no two entries for the same epoch, and no more entries than
/// there is room for.
pub proof fn law_invariant_in_full(cache: CacheView)
    ensures
        cache.wf() <==> cache.entries.len() <= cache.capacity && (forall|i: int, j: int|
            0 <= i < j < cache.entries.len() ==> (#[trigger] cache.entries[i]).0 != (
            #[trigger] cache.entries[j]).0),
{
}

/// The entry found for an epoch is the one that stands among the entries with it.
pub proof fn law_entry_in_full(cache: CacheView, epoch: Epoch, entry: EntryView)
    requires
        cache.wf(),
    ensures
        cache.entry(epoch) == Some(entry) <==> cache.entries.contains((epoch, entry)),
        cache.entry(epoch) is None <==> forall|i: int|
            0 <= i < cache.entries.len() ==> (#[trigger] cache.entries[i]).0 != epoch,
{
    lemma_entry_of(cache.entries, epoch);
    if cache.entry(epoch) is Some {
        let i = choose|i: int|
            0 <= i < cache.entries.len() && (#[trigger] cache.entries[i]).0 == epoch;
        lemma_entry_at(cache.entries, i);
        assert(cache.entries[i] == (epoch, cache.entry(epoch)->0));
        assert(cache.entries.contains(cache.entries[i]));
    }
    if cache.entries.contains((epoch, entry)) {
        let i = choose|i: int| 0 <= i < cache.entries.len() && cache.entries[i] == (epoch, entry);
        lemma_entry_at(cache.entries, i);
    }
}

/// A slot of the warmup can be placed where, counted up by 33, it does not exceed `2^63`; any other
/// can.
pub proof fn law_covered_slots(schedule: EpochSchedule, slot: Slot)
    ensures
        schedule.covers(slot) <==> slot >= schedule.first_normal_slot || slot + 33
            <= 0x8000_0000_0000_0000,
{
}

/// After the warmup all epochs are of one length: the slots of the `q`-th of them are those from `q`
/// lengths after the warmup up to `q + 1` lengths after it. Numbers stop at `u64::MAX`. With a
/// length of zero all slots are of the first of them.
pub proof fn law_normal_epochs(schedule: EpochSchedule, slot: Slot, q: nat)
    requires
        slot >= schedule.first_normal_slot,
        schedule.slots_per_epoch > 0 ==> q * schedule.slots_per_epoch <= slot
            - schedule.first_normal_slot < (q + 1) * schedule.slots_per_epoch,
    ensures
        schedule.slots_per_epoch == 0 ==> schedule.epoch_of(slot) == schedule.first_normal_epoch,
        schedule.slots_per_epoch > 0 && schedule.first_normal_epoch + q
            <= 0xffff_ffff_ffff_ffff ==> schedule.epoch_of(slot) == schedule.first_normal_epoch + q,
        schedule.slots_per_epoch > 0 && schedule.first_normal_epoch + q > 0xffff_ffff_ffff_ffff
            ==> schedule.epoch_of(slot) == 0xffff_ffff_ffff_ffff,
{
    if schedule.slots_per_epoch > 0 {
        let d = schedule.slots_per_epoch as int;
        let x = slot - schedule.first_normal_slot;
        let r = x - q * d;
        assert((q + 1) * d == q * d + d) by (nonlinear_arith);
        assert(x == q * d + r);
        assert(q as int * d == q * d);
        lemma_fundamental_div_mod_converse(x, d, q as int, r);
        assert(x / d == q);
    }
}

/// A read is of the epoch of its slot by the schedule of the working bank.
pub proof fn law_epoch_of_a_read(read: Read, q: nat)
    requires
        read.bank_forks.working_bank.epoch_schedule.covers(read.slot),
    ensures
        ({
            let schedule = read.bank_forks.working_bank.epoch_schedule;
            &&& read.slot < schedule.first_normal_slot ==> 32 * (vstd::arithmetic::power2::pow2(
                read.epoch() as nat,
            ) - 1) <= read.slot < 32 * (vstd::arithmetic::power2::pow2(
                (read.epoch() + 1) as nat,
            ) - 1)
            &&& read.slot >= schedule.first_normal_slot && schedule.slots_per_epoch > 0 && q
                * schedule.slots_per_epoch <= read.slot - schedule.first_normal_slot < (q + 1)
                * schedule.slots_per_epoch && schedule.first_normal_epoch + q
                <= 0xffff_ffff_ffff_ffff ==> read.epoch() == schedule.first_normal_epoch + q
        }),
{
    let schedule = read.bank_forks.working_bank.epoch_schedule;
    if read.slot < schedule.first_normal_slot {
        law_warmup_epochs(schedule, read.slot, read.epoch());
    } else if schedule.slots_per_epoch > 0 && q * schedule.slots_per_epoch <= read.slot
        - schedule.first_normal_slot < (q + 1) * schedule.slots_per_epoch {
        law_normal_epochs(schedule, read.slot, q);
    }
}

/// What is stored for an epoch stands in front, with the time at which it was stored. The other
/// entries stay in their order; where there was none for the epoch and the cache was full, the last
/// of them is gone. A cache with room for nothing stays empty. Nothing else changes.
pub proof fn law_refresh_in_full(
    before: CacheView,
    epoch: Epoch,
    sockets: Seq<SocketAddr>,
    update_time: Instant,
    after: CacheView,
    i: int,
)
    requires
        before.wf(),
        after == before.after_refresh(epoch, sockets, update_time),
    ensures
        ({
            let front = (
                epoch,
                EntryView { alpenglow_sockets: sockets, creation_time: update_time },
            );
            let new = forall|j: int|
                0 <= j < before.entries.len() ==> (#[trigger] before.entries[j]).0 != epoch;
            &&& before.capacity == 0 ==> after.entries.len() == 0
            &&& 0 <= i < before.entries.len() && before.entries[i].0 == epoch ==> after.entries
                == seq![front] + before.entries.remove(i)
            &&& new && 0 < before.capacity && before.entries.len() < before.capacity
                ==> after.entries == seq![front] + before.entries
            &&& new && 0 < before.capacity && before.entries.len() == before.capacity
                ==> after.entries == seq![front] + before.entries.drop_last()
        }),
        after.capacity == before.capacity,
        after.ttl == before.ttl,
        after.include_self == before.include_self,
        after.alpenglow_port_override_last_modified
            == before.alpenglow_port_override_last_modified,
{
    lemma_entry_of(before.entries, epoch);
    if 0 <= i < before.entries.len() && before.entries[i].0 == epoch {
        lemma_without_is_removal(before.entries, i);
    }
}

/// A use of an epoch moves its entry, where there is one, to the front and leaves the others in
/// their order. Nothing else changes.
pub proof fn law_use_in_full(before: CacheView, epoch: Epoch, after: CacheView, i: int)
    requires
        before.wf(),
        after == before.after_use(epoch),
    ensures
        0 <= i < before.entries.len() && before.entries[i].0 == epoch ==> after.entries
            == seq![before.entries[i]] + before.entries.remove(i),
        (forall|j: int|
            0 <= j < before.entries.len() ==> (#[trigger] before.entries[j]).0 != epoch)
            ==> after.entries == before.entries,
        after.capacity == before.capacity,
        after.ttl == before.ttl,
        after.include_self == before.include_self,
        after.alpenglow_port_override_last_modified
            == before.alpenglow_port_override_last_modified,
{
    lemma_entry_of(before.entries, epoch);
    if 0 <= i < before.entries.len() && before.entries[i].0 == epoch {
        lemma_without_is_removal(before.entries, i);
        lemma_entry_at(before.entries, i);
    }
}

/// Sockets are worked out for an epoch from what the root bank's table holds for it, where it holds
/// something, else from what the working bank's table holds; where neither does there are none.
/// What counts besides is whether the cache is to include the running validator, gossip, and the
/// port override as it is.
pub proof fn law_current_sockets_in_full(
    cache: CacheView,
    sockets: Seq<SocketAddr>,
    epoch: Epoch,
    bank_forks: BankForks,
    cluster_info: ClusterInfo,
    port_override: Option<&AlpenglowPortOverride>,
)
    requires
        cache.is_current(sockets, epoch, bank_forks, cluster_info, port_override),
    ensures
        bank_forks.root_bank.epoch_stakes@.contains_key(epoch) ==> is_socket_list(
            sockets,
            bank_forks.root_bank.epoch_stakes@[epoch]@,
            cache.include_self,
            cluster_info,
            port_override,
        ),
        !bank_forks.root_bank.epoch_stakes@.contains_key(epoch)
            && bank_forks.working_bank.epoch_stakes@.contains_key(epoch) ==> is_socket_list(
            sockets,
            bank_forks.working_bank.epoch_stakes@[epoch]@,
            cache.include_self,
            cluster_info,
            port_override,
        ),
        !bank_forks.root_bank.epoch_stakes@.contains_key(epoch)
            && !bank_forks.working_bank.epoch_stakes@.contains_key(epoch) ==> sockets.len() == 0,
{
    if !bank_forks.root_bank.epoch_stakes@.contains_key(epoch)
        && !bank_forks.working_bank.epoch_stakes@.contains_key(epoch) {
        law_unknown_epoch(cache, sockets, epoch, bank_forks, cluster_info, port_override);
    }
}

/// A read by epoch, where the cache holds an entry for it: it refreshes exactly where the access is
/// later than the time at which the entry was made plus the time to live, or that sum lies beyond
/// the clock. Else it returns the sockets of the entry.
pub proof fn law_epoch_read_of_a_held_epoch(
    before: CacheView,
    epoch: Epoch,
    bank_forks: BankForks,
    cluster_info: ClusterInfo,
    port_override: Option<&AlpenglowPortOverride>,
    access_time: Instant,
    sockets: Seq<SocketAddr>,
    refreshed: bool,
    after: CacheView,
    i: int,
)
    requires
        before.wf(),
        before.capacity > 0,
        before.reads_epoch(
            epoch,
            bank_forks,
            cluster_info,
            port_override,
            access_time,
            sockets,
            refreshed,
            after,
        ),
        0 <= i < before.entries.len(),
        before.entries[i].0 == epoch,
    ensures
        ({
            let made = before.entries[i].1.creation_time.nanos;
            let end = 9_223_372_036_854_775_807_999_999_999int;
            &&& made + before.ttl.nanos <= end ==> (refreshed <==> access_time.nanos > made
                + before.ttl.nanos)
            &&& made + before.ttl.nanos > end ==> refreshed
        }),
        !refreshed ==> sockets == before.entries[i].1.alpenglow_sockets && after.entries
            == seq![before.entries[i]] + before.entries.remove(i),
        refreshed ==> after.entries == seq![
            (epoch, EntryView { alpenglow_sockets: sockets, creation_time: access_time }),
        ] + before.entries.remove(i),
        refreshed ==> before.is_current(sockets, epoch, bank_forks, cluster_info, port_override),
        after.capacity == before.capacity,
        after.ttl == before.ttl,
        after.include_self == before.include_self,
        after.alpenglow_port_override_last_modified
            == before.alpenglow_port_override_last_modified,
{
    lemma_entry_at(before.entries, i);
    if refreshed {
        law_refresh_in_full(before, epoch, sockets, access_time, after, i);
    } else {
        law_use_in_full(before, epoch, after, i);
    }
}

/// A read by epoch, where the cache holds no entry for it, refreshes. What it returns stands in
/// front from then on; of a full cache the last entry is gone.
pub proof fn law_epoch_read_of_a_new_epoch(
    before: CacheView,
    epoch: Epoch,
    bank_forks: BankForks,
    cluster_info: ClusterInfo,
    port_override: Option<&AlpenglowPortOverride>,
    access_time: Instant,
    sockets: Seq<SocketAddr>,
    refreshed: bool,
    after: CacheView,
)
    requires
        before.wf(),
        before.capacity > 0,
        before.reads_epoch(
            epoch,
            bank_forks,
            cluster_info,
            port_override,
            access_time,
            sockets,
            refreshed,
            after,
        ),
        forall|i: int| 0 <= i < before.entries.len() ==> (#[trigger] before.entries[i]).0 != epoch,
    ensures
        refreshed,
        before.is_current(sockets, epoch, bank_forks, cluster_info, port_override),
        after.entries == seq![
            (epoch, EntryView { alpenglow_sockets: sockets, creation_time: access_time }),
        ] + if before.entries.len() == before.capacity {
            before.entries.drop_last()
        } else {
            before.entries
        },
        after.capacity == before.capacity,
        after.ttl == before.ttl,
        after.include_self == before.include_self,
        after.alpenglow_port_override_last_modified
            == before.alpenglow_port_override_last_modified,
{
    lemma_entry_of(before.entries, epoch);
    law_refresh_in_full(before, epoch, sockets, access_time, after, 0);
}

/// A read by slot of an epoch that is held, with no new port override: it refreshes exactly where
/// the access is later than the time at which the entry was made plus the time to live, or that sum
/// lies beyond the clock. Else it returns the sockets of the entry.
pub proof fn law_read_of_a_held_epoch(before: CacheView, read: Read, after: CacheView, i: int)
    requires
        before.wf(),
        before.capacity > 0,
        read.takes(before, after),
        read.port_override is None || read.port_override->0.modified()
            == before.alpenglow_port_override_last_modified,
        0 <= i < before.entries.len(),
        before.entries[i].0 == read.epoch(),
    ensures
        ({
            let made = before.entries[i].1.creation_time.nanos;
            let end = 9_223_372_036_854_775_807_999_999_999int;
            &&& made + before.ttl.nanos <= end ==> (read.refreshed <==> read.access_time.nanos
                > made + before.ttl.nanos)
            &&& made + before.ttl.nanos > end ==> read.refreshed
        }),
        !read.refreshed ==> read.sockets == before.entries[i].1.alpenglow_sockets && after.entries
            == seq![before.entries[i]] + before.entries.remove(i),
        read.refreshed ==> after.entries == seq![
            (
                read.epoch(),
                EntryView { alpenglow_sockets: read.sockets, creation_time: read.access_time },
            ),
        ] + before.entries.remove(i),
        after.capacity == before.capacity,
        after.ttl == before.ttl,
        after.include_self == before.include_self,
        after.alpenglow_port_override_last_modified
            == before.alpenglow_port_override_last_modified,
{
    law_epoch_read_of_a_held_epoch(
        before,
        read.epoch(),
        read.bank_forks,
        read.cluster_info,
        read.port_override,
        read.access_time,
        read.sockets,
        read.refreshed,
        after,
        i,
    );
}

/// A read by slot of an epoch that is not held, with no new port override, refreshes. What it
/// returns stands in front from then on; of a full cache the last entry is gone.
pub proof fn law_read_of_a_new_epoch(before: CacheView, read: Read, after: CacheView)
    requires
        before.wf(),
        before.capacity > 0,
        read.takes(before, after),
        read.port_override is None || read.port_override->0.modified()
            == before.alpenglow_port_override_last_modified,
        forall|i: int|
            0 <= i < before.entries.len() ==> (#[trigger] before.entries[i]).0 != read.epoch(),
    ensures
        read.refreshed,
        after.entries == seq![
            (
                read.epoch(),
                EntryView { alpenglow_sockets: read.sockets, creation_time: read.access_time },
            ),
        ] + if before.entries.len() == before.capacity {
            before.entries.drop_last()
        } else {
            before.entries
        },
        after.capacity == before.capacity,
        after.ttl == before.ttl,
        after.include_self == before.include_self,
        after.alpenglow_port_override_last_modified
            == before.alpenglow_port_override_last_modified,
{
    law_epoch_read_of_a_new_epoch(
        before,
        read.epoch(),
        read.bank_forks,
        read.cluster_info,
        read.port_override,
        read.access_time,
        read.sockets,
        read.refreshed,
        after,
    );
}

/// A read by slot with a new port override stores what it returns as of the access, however young
/// the entry was, and notes the modification time. It says that it refreshed only where the time to
/// live ends beyond the clock.
pub proof fn law_read_with_a_new_override(before: CacheView, read: Read, after: CacheView, i: int)
    requires
        before.wf(),
        before.capacity > 0,
        read.takes(before, after),
        read.port_override is Some,
        read.port_override->0.modified() != before.alpenglow_port_override_last_modified,
    ensures
        read.refreshed <==> read.access_time.nanos + before.ttl.nanos
            > 9_223_372_036_854_775_807_999_999_999,
        ({
            let front = (
                read.epoch(),
                EntryView { alpenglow_sockets: read.sockets, creation_time: read.access_time },
            );
            let new = forall|j: int|
                0 <= j < before.entries.len() ==> (#[trigger] before.entries[j]).0 != read.epoch();
            &&& 0 <= i < before.entries.len() && before.entries[i].0 == read.epoch()
                ==> after.entries == seq![front] + before.entries.remove(i)
            &&& new && before.entries.len() < before.capacity ==> after.entries == seq![front]
                + before.entries
            &&& new && before.entries.len() == before.capacity ==> after.entries == seq![front]
                + before.entries.drop_last()
        }),
        after.alpenglow_port_override_last_modified == read.port_override->0.modified(),
        after.capacity == before.capacity,
        after.ttl == before.ttl,
        after.include_self == before.include_self,
{
    let noted = before.after_override(read.port_override);
    law_refresh_in_full(noted, read.epoch(), read.sockets, read.access_time, after, i);
}

/// A read by slot that refreshes, or that is handed a new port override, returns the list of
/// sockets of exactly what the root bank's table holds for the epoch, where it holds something, else
/// of what the working bank's table holds; where neither does it returns none.
pub proof fn law_stakes_of_a_read(before: CacheView, read: Read, after: CacheView)
    requires
        read.takes(before, after),
        read.refreshed || (read.port_override is Some && read.port_override->0.modified()
            != before.alpenglow_port_override_last_modified),
    ensures
        ({
            let root = read.bank_forks.root_bank.epoch_stakes@;
            let working = read.bank_forks.working_bank.epoch_stakes@;
            let epoch = read.epoch();
            &&& root.contains_key(epoch) ==> is_socket_list(
                read.sockets,
                root[epoch]@,
                before.include_self,
                read.cluster_info,
                read.port_override,
            )
            &&& !root.contains_key(epoch) && working.contains_key(epoch) ==> is_socket_list(
                read.sockets,
                working[epoch]@,
                before.include_self,
                read.cluster_info,
                read.port_override,
            )
            &&& !root.contains_key(epoch) && !working.contains_key(epoch) ==> read.sockets.len()
                == 0
        }),
{
    law_current_sockets_in_full(
        before,
        read.sockets,
        read.epoch(),
        read.bank_forks,
        read.cluster_info,
        read.port_override,
    );
}

/// What the tables of the banks hold for other epochs does not matter to a read, nor what the
/// working bank's table holds for the epoch where the root bank's holds something.
pub proof fn law_other_stakes_do_not_count(
    before: CacheView,
    read: Read,
    after: CacheView,
    bank_forks: BankForks,
)
    requires
        bank_forks.working_bank.epoch_schedule == read.bank_forks.working_bank.epoch_schedule,
        ({
            let root = read.bank_forks.root_bank.epoch_stakes@;
            let working = read.bank_forks.working_bank.epoch_stakes@;
            let other_root = bank_forks.root_bank.epoch_stakes@;
            let other_working = bank_forks.working_bank.epoch_stakes@;
            let epoch = read.epoch();
            &&& root.contains_key(epoch) <==> other_root.contains_key(epoch)
            &&& root.contains_key(epoch) ==> other_root[epoch]@ == root[epoch]@
            &&& !root.contains_key(epoch) ==> (working.contains_key(epoch)
                <==> other_working.contains_key(epoch))
            &&& !root.contains_key(epoch) && working.contains_key(epoch)
                ==> other_working[epoch]@ == working[epoch]@
        }),
    ensures
        read.takes(before, after) <==> (Read { bank_forks, ..read }).takes(before, after),
{
    assert(bank_forks.staked_nodes(read.epoch()) == read.bank_forks.staked_nodes(read.epoch()));
}

/// What is due for a refresh stays due: of two reads of the same epoch of the same cache with the
/// same port override, the later one refreshes where the earlier one does.
pub proof fn law_a_refresh_stays_due(
    before: CacheView,
    earlier: Read,
    after_earlier: CacheView,
    later: Read,
    after_later: CacheView,
)
    requires
        before.wf(),
        earlier.takes(before, after_earlier),
        later.takes(before, after_later),
        later.epoch() == earlier.epoch(),
        later.port_override == earlier.port_override,
        earlier.access_time.nanos <= later.access_time.nanos,
        earlier.refreshed,
    ensures
        later.refreshed,
{
}

/// A read and then another of the same epoch, with no port override new to the second. The second
/// refreshes exactly where it is later than the making of the entry by more than the time to live,
/// or where the time to live ends beyond the clock; else it returns what the first did. The entry
/// was made by the first read, where that one refreshed or was handed a new port override; else it
/// was made before.
pub proof fn law_reread_in_numbers(
    before: CacheView,
    first: Read,
    between: CacheView,
    second: Read,
    after: CacheView,
    i: int,
)
    requires
        before.wf(),
        before.capacity > 0,
        first.takes(before, between),
        second.takes(between, after),
        second.epoch() == first.epoch(),
        second.port_override is None || second.port_override->0.modified()
            == between.alpenglow_port_override_last_modified,
    ensures
        ({
            let end = 9_223_372_036_854_775_807_999_999_999int;
            let made_by_first = first.refreshed || (first.port_override is Some
                && first.port_override->0.modified()
                != before.alpenglow_port_override_last_modified);
            let made = before.entries[i].1.creation_time.nanos;
            &&& made_by_first && first.access_time.nanos + before.ttl.nanos <= end ==> (
            second.refreshed <==> second.access_time.nanos > first.access_time.nanos
                + before.ttl.nanos)
            &&& made_by_first && first.access_time.nanos + before.ttl.nanos > end
                ==> second.refreshed
            &&& !made_by_first && 0 <= i < before.entries.len() && before.entries[i].0
                == first.epoch() ==> (second.refreshed <==> second.access_time.nanos > made
                + before.ttl.nanos)
        }),
        !second.refreshed ==> second.sockets == first.sockets && after == between,
        second.refreshed ==> second.sockets == after.entries[0].1.alpenglow_sockets
            && after.entries[0].1.creation_time == second.access_time,
{
    let epoch = first.epoch();
    crate::laws::law_reads_keep_the_cache_usable(before, first, between);
    crate::laws::law_a_read_is_held(before, first, between);
    lemma_entry_at(between.entries, 0);
    law_read_of_a_held_epoch(between, second, after, 0);
    lemma_entry_of(before.entries, epoch);
    if 0 <= i < before.entries.len() && before.entries[i].0 == epoch {
        lemma_entry_at(before.entries, i);
    }
    lemma_used(between.entries, epoch);
    assert(between.entries =~= seq![between.entries[0]] + between.entries.remove(0));
    assert(!second.refreshed ==> after.entries =~= between.entries);
}

} // verus!
