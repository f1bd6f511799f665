//! What each call returns and changes, whatever its arguments.

use solana_clock::{Epoch, Slot};
use vstd::prelude::*;

use crate::bank::{Bank, BankForks};
use crate::cache::StakedValidatorsCache;
use crate::gossip::{ClusterInfo, ContactInfo};
use crate::laws::{law_a_table_is_a_map, Read};
use crate::list_laws::{law_one_socket_at_each_place, no_key_twice};
use crate::net::{find_value, Pubkey, SocketAddr};
use crate::nodes::{
    dedup_by_socket, deduplicated, is_socket_list, reachable, reachable_nodes, resolve_sockets,
    sockets_of, Node,
};
use crate::port_override::AlpenglowPortOverride;
use crate::read_laws::{law_current_sockets_in_full, law_refresh_in_full};
use crate::time::{Duration, Instant};

verus! {

/// A new cache is empty and has the settings that it was given.
pub proof fn law_new_cache(
    ttl: Duration,
    max_cache_size: usize,
    include_self: bool,
    now: Instant,
    cache: StakedValidatorsCache,
)
    requires
        call_ensures(StakedValidatorsCache::new, (ttl, max_cache_size, include_self, now), cache),
    ensures
        cache@.entries.len() == 0,
        cache@.capacity == max_cache_size,
        cache@.ttl.nanos == ttl.nanos,
        cache@.include_self == include_self,
        cache@.alpenglow_port_override_last_modified.nanos == now.nanos,
        cache@.wf(),
{
}

/// An instant and a span add up, unless the sum is beyond the clock.
pub proof fn law_checked_add(instant: Instant, duration: Duration, later: Option<Instant>)
    requires
        call_ensures(Instant::checked_add, (instant, duration), later),
    ensures
        later is Some <==> instant.nanos + duration.nanos
            <= 9_223_372_036_854_775_807_999_999_999,
        later is Some ==> later->0.nanos == instant.nanos + duration.nanos,
{
}

/// A new port override names no socket.
pub proof fn law_new_override(now: Instant, port_override: AlpenglowPortOverride)
    requires
        call_ensures(AlpenglowPortOverride::new, (now,), port_override),
    ensures
        port_override.overrides().len() == 0,
        port_override.modified().nanos == now.nanos,
{
}

/// An update replaces all that the port override names; a clearing leaves it nothing. Both note the
/// time.
pub proof fn law_changes_of_an_override(new_override: Vec<(Pubkey, SocketAddr)>, now: Instant)
    ensures
        forall|port_override: &mut AlpenglowPortOverride, nothing: ()| #[trigger]
            call_ensures(
                AlpenglowPortOverride::update_override,
                (port_override, new_override, now),
                nothing,
            ) ==> final(port_override).overrides() == new_override@ && final(
                port_override).modified().nanos == now.nanos,
        forall|port_override: &mut AlpenglowPortOverride, nothing: ()| #[trigger]
            call_ensures(AlpenglowPortOverride::clear, (port_override, now), nothing) ==> final(
                port_override).overrides().len() == 0 && final(port_override).modified().nanos
                == now.nanos,
{
}

/// A port override tells what it names and when that was last changed. It is new to whoever has
/// noted any other time.
pub proof fn law_looks_at_an_override(
    port_override: &AlpenglowPortOverride,
    previous: Instant,
    changed: bool,
    modified: Instant,
    overrides: &Vec<(Pubkey, SocketAddr)>,
)
    requires
        call_ensures(AlpenglowPortOverride::has_new_override, (port_override, previous), changed),
        call_ensures(AlpenglowPortOverride::last_modified, (port_override,), modified),
        call_ensures(AlpenglowPortOverride::get_override_map, (port_override,), overrides),
    ensures
        modified == port_override.modified(),
        overrides@ == port_override.overrides(),
        changed <==> modified.nanos != previous.nanos,
{
}

/// A lookup in a table finds the value that stands with the key, and nothing where none does.
pub proof fn law_lookup<V: Copy>(table: &Vec<(Pubkey, V)>, key: &Pubkey, value: Option<V>)
    requires
        no_key_twice(table@),
        call_ensures(find_value::<V>, (table, key), value),
    ensures
        value is Some ==> table@.contains((*key, value->0)),
        forall|i: int|
            0 <= i < table@.len() && (#[trigger] table@[i]).0 == *key ==> value == Some(
                table@[i].1,
            ),
{
    if value is Some {
        law_a_table_is_a_map(table@, *key, value->0);
    }
    assert forall|i: int| 0 <= i < table@.len() && (#[trigger] table@[i]).0 == *key implies value
        == Some(table@[i].1) by {
        assert(table@[i] == (*key, table@[i].1));
        law_a_table_is_a_map(table@, *key, table@[i].1);
    }
}

/// The contact info of a node is the one that stands with it in the gossip table.
pub proof fn law_contact_info(
    cluster_info: &ClusterInfo,
    pubkey: &Pubkey,
    contact_info: Option<ContactInfo>,
)
    requires
        no_key_twice(cluster_info.contact_infos@),
        call_ensures(ClusterInfo::lookup_contact_info, (cluster_info, pubkey), contact_info),
    ensures
        contact_info is Some ==> cluster_info.contact_infos@.contains((*pubkey, contact_info->0)),
        forall|i: int|
            0 <= i < cluster_info.contact_infos@.len() && (
            #[trigger] cluster_info.contact_infos@[i]).0 == *pubkey ==> contact_info == Some(
                cluster_info.contact_infos@[i].1,
            ),
{
    let table = cluster_info.contact_infos@;
    if contact_info is Some {
        law_a_table_is_a_map(table, *pubkey, contact_info->0);
    }
    assert forall|i: int| 0 <= i < table.len() && (#[trigger] table[i]).0 == *pubkey implies
        contact_info == Some(table[i].1) by {
        assert(table[i] == (*pubkey, table[i].1));
        law_a_table_is_a_map(table, *pubkey, table[i].1);
    }
}

/// A bank knows the stakes of an epoch where its table holds them, and they are those.
pub proof fn law_stakes_of_a_bank(bank: &Bank, epoch: Epoch, nodes: Option<&Vec<(Pubkey, u64)>>)
    requires
        call_ensures(Bank::epoch_staked_nodes, (bank, epoch), nodes),
    ensures
        nodes is Some <==> bank.epoch_stakes@.contains_key(epoch),
        nodes is Some ==> nodes->0@ == bank.epoch_stakes@[epoch]@,
{
}

/// The root bank is asked for the stakes of an epoch first, the working bank only where the root
/// bank does not know them.
pub proof fn law_stakes_of_the_forks(
    bank_forks: &BankForks,
    epoch: Epoch,
    nodes: Option<&Vec<(Pubkey, u64)>>,
)
    requires
        call_ensures(BankForks::epoch_staked_nodes, (bank_forks, epoch), nodes),
    ensures
        bank_forks.root_bank.epoch_stakes@.contains_key(epoch) ==> nodes is Some && nodes->0@
            == bank_forks.root_bank.epoch_stakes@[epoch]@,
        !bank_forks.root_bank.epoch_stakes@.contains_key(epoch)
            && bank_forks.working_bank.epoch_stakes@.contains_key(epoch) ==> nodes is Some
            && nodes->0@ == bank_forks.working_bank.epoch_stakes@[epoch]@,
        !bank_forks.root_bank.epoch_stakes@.contains_key(epoch)
            && !bank_forks.working_bank.epoch_stakes@.contains_key(epoch) ==> nodes is None,
{
}

/// The steps from stakes to sockets give what the laws on lists speak of.
pub proof fn law_steps_to_a_list(
    staked_nodes: &Vec<(Pubkey, u64)>,
    include_self: bool,
    cluster_info: &ClusterInfo,
    port_override: Option<&AlpenglowPortOverride>,
    found: Vec<Node>,
    nodes: &Vec<Node>,
    kept: Vec<Node>,
    sockets: Vec<SocketAddr>,
)
    requires
        call_ensures(reachable_nodes, (staked_nodes, include_self, cluster_info), found),
        call_ensures(dedup_by_socket, (nodes,), kept),
        call_ensures(sockets_of, (staked_nodes, include_self, cluster_info, port_override), sockets),
    ensures
        found@ == reachable(staked_nodes@, include_self, *cluster_info),
        kept@ == deduplicated(nodes@),
        is_socket_list(sockets@, staked_nodes@, include_self, *cluster_info, port_override),
{
}

/// The socket picked for a node is the one that the port override names for it, and where it names
/// none the one from gossip.
pub proof fn law_picked_sockets(
    nodes: &Vec<Node>,
    port_override: Option<&AlpenglowPortOverride>,
    sockets: Vec<SocketAddr>,
    i: int,
)
    requires
        call_ensures(resolve_sockets, (nodes, port_override), sockets),
        0 <= i < nodes@.len(),
        port_override is Some ==> no_key_twice(port_override->0.overrides()),
    ensures
        sockets@.len() == nodes@.len(),
        port_override is None ==> sockets@[i] == nodes@[i].alpenglow_socket,
        port_override is Some ==> {
            ||| port_override->0.overrides().contains((nodes@[i].pubkey, sockets@[i]))
            ||| sockets@[i] == nodes@[i].alpenglow_socket && (forall|n: int|
                0 <= n < port_override->0.overrides().len() ==> (
                #[trigger] port_override->0.overrides()[n]).0 != nodes@[i].pubkey)
        },
{
    law_one_socket_at_each_place(nodes@, port_override, i);
}

/// The epoch of a slot goes by the schedule of the working bank.
pub proof fn law_current_epoch(bank_forks: &BankForks, slot: Slot, epoch: Epoch)
    requires
        call_ensures(StakedValidatorsCache::cur_epoch, (bank_forks, slot), epoch),
    ensures
        epoch == bank_forks.working_bank.epoch_schedule.epoch_of(slot),
{
}

/// The cache tells how many entries it holds, whether it holds any, and whether it holds one for an
/// epoch.
pub proof fn law_looks_at_the_cache(
    cache: &StakedValidatorsCache,
    epoch: Epoch,
    port_override: Option<&AlpenglowPortOverride>,
    len: usize,
    empty: bool,
    contained: bool,
    changed: bool,
)
    requires
        call_ensures(StakedValidatorsCache::len, (cache,), len),
        call_ensures(StakedValidatorsCache::is_empty, (cache,), empty),
        call_ensures(StakedValidatorsCache::contains, (cache, epoch), contained),
        call_ensures(StakedValidatorsCache::has_new_override, (cache, port_override), changed),
    ensures
        len == cache@.entries.len(),
        empty <==> len == 0,
        contained <==> exists|i: int|
            0 <= i < cache@.entries.len() && (#[trigger] cache@.entries[i]).0 == epoch,
        changed <==> port_override is Some && port_override->0.modified().nanos
            != cache@.alpenglow_port_override_last_modified.nanos,
{
}

/// An epoch needs a refresh where no entry is held for it, and else exactly where the access is
/// later than the time at which the entry was made plus the time to live, or that sum lies beyond
/// the clock. To ask is to use the entry.
pub proof fn law_need_of_a_refresh(epoch: Epoch, access_time: Instant)
    ensures
        forall|cache: &mut StakedValidatorsCache, needed: bool| #[trigger]
            call_ensures(
                StakedValidatorsCache::needs_refresh,
                (cache, epoch, access_time),
                needed,
            ) && cache@.wf() ==> {
                &&& final(cache)@ == cache@.after_use(epoch)
                &&& (forall|i: int|
                    0 <= i < cache@.entries.len() ==> (#[trigger] cache@.entries[i]).0 != epoch)
                    ==> needed
                &&& forall|i: int|
                    0 <= i < cache@.entries.len() && (#[trigger] cache@.entries[i]).0 == epoch ==> (
                    needed <==> cache@.entries[i].1.creation_time.nanos + cache@.ttl.nanos
                        > 9_223_372_036_854_775_807_999_999_999 || access_time.nanos
                        > cache@.entries[i].1.creation_time.nanos + cache@.ttl.nanos)
            },
{
}

/// A refresh stores a list of sockets of what the root bank's table, else the working bank's table
/// holds for the epoch, as of the time of the update.
pub proof fn law_refresh(
    epoch: Epoch,
    bank_forks: &BankForks,
    cluster_info: &ClusterInfo,
    port_override: Option<&AlpenglowPortOverride>,
    update_time: Instant,
)
    ensures
        forall|cache: &mut StakedValidatorsCache, nothing: ()| #[trigger]
            call_ensures(
                StakedValidatorsCache::refresh_cache_entry,
                (cache, epoch, bank_forks, cluster_info, port_override, update_time),
                nothing,
            ) && cache@.wf() && cache@.capacity > 0 ==> {
                let root = bank_forks.root_bank.epoch_stakes@;
                let working = bank_forks.working_bank.epoch_stakes@;
                let front = final(cache)@.entries[0];
                &&& final(cache)@.entries.len() > 0
                &&& front.0 == epoch
                &&& front.1.creation_time == update_time
                &&& root.contains_key(epoch) ==> is_socket_list(
                    front.1.alpenglow_sockets,
                    root[epoch]@,
                    cache@.include_self,
                    *cluster_info,
                    port_override,
                )
                &&& !root.contains_key(epoch) && working.contains_key(epoch) ==> is_socket_list(
                    front.1.alpenglow_sockets,
                    working[epoch]@,
                    cache@.include_self,
                    *cluster_info,
                    port_override,
                )
                &&& !root.contains_key(epoch) && !working.contains_key(epoch)
                    ==> front.1.alpenglow_sockets.len() == 0
                &&& final(cache)@ == cache@.after_refresh(
                    epoch,
                    front.1.alpenglow_sockets,
                    update_time,
                )
            },
{
    assert forall|cache: &mut StakedValidatorsCache, nothing: ()| #[trigger]
        call_ensures(
            StakedValidatorsCache::refresh_cache_entry,
            (cache, epoch, bank_forks, cluster_info, port_override, update_time),
            nothing,
        ) && cache@.wf() && cache@.capacity > 0 implies {
        let root = bank_forks.root_bank.epoch_stakes@;
        let working = bank_forks.working_bank.epoch_stakes@;
        let front = final(cache)@.entries[0];
        &&& final(cache)@.entries.len() > 0
        &&& front.0 == epoch
        &&& front.1.creation_time == update_time
        &&& root.contains_key(epoch) ==> is_socket_list(
            front.1.alpenglow_sockets,
            root[epoch]@,
            cache@.include_self,
            *cluster_info,
            port_override,
        )
        &&& !root.contains_key(epoch) && working.contains_key(epoch) ==> is_socket_list(
            front.1.alpenglow_sockets,
            working[epoch]@,
            cache@.include_self,
            *cluster_info,
            port_override,
        )
        &&& !root.contains_key(epoch) && !working.contains_key(epoch)
            ==> front.1.alpenglow_sockets.len() == 0
        &&& final(cache)@ == cache@.after_refresh(epoch, front.1.alpenglow_sockets, update_time)
    } by {
        let before = cache@;
        let after = final(cache)@;
        let sockets = choose|sockets: Seq<SocketAddr>|
            {
                &&& #[trigger] before.is_current(
                    sockets,
                    epoch,
                    *bank_forks,
                    *cluster_info,
                    port_override,
                )
                &&& after == before.after_refresh(epoch, sockets, update_time)
            };
        law_current_sockets_in_full(
            before,
            sockets,
            epoch,
            *bank_forks,
            *cluster_info,
            port_override,
        );
        let i = if exists|i: int|
            0 <= i < before.entries.len() && (#[trigger] before.entries[i]).0 == epoch {
            choose|i: int| 0 <= i < before.entries.len() && (#[trigger] before.entries[i]).0 == epoch
        } else {
            -1
        };
        law_refresh_in_full(before, epoch, sockets, update_time, after, i);
    }
}

/// A call by slot is a read, and one by epoch is a read of that epoch, as the laws on reads speak of
/// them.
pub proof fn law_calls_are_reads(
    slot: Slot,
    epoch: Epoch,
    bank_forks: &BankForks,
    cluster_info: &ClusterInfo,
    port_override: Option<&AlpenglowPortOverride>,
    access_time: Instant,
)
    ensures
        forall|cache: &mut StakedValidatorsCache, read: (&[SocketAddr], bool)| #[trigger]
            call_ensures(
                StakedValidatorsCache::get_staked_validators_by_slot,
                (cache, slot, bank_forks, cluster_info, port_override, access_time),
                read,
            ) ==> final(cache)@.wf() && (Read {
                slot,
                bank_forks: *bank_forks,
                cluster_info: *cluster_info,
                port_override,
                access_time,
                sockets: read.0@,
                refreshed: read.1,
            }).takes(cache@, final(cache)@),
        forall|cache: &mut StakedValidatorsCache, read: (&[SocketAddr], bool)| #[trigger]
            call_ensures(
                StakedValidatorsCache::get_staked_validators_by_epoch,
                (cache, epoch, bank_forks, cluster_info, port_override, access_time),
                read,
            ) ==> final(cache)@.wf() && cache@.reads_epoch(
                epoch,
                *bank_forks,
                *cluster_info,
                port_override,
                access_time,
                read.0@,
                read.1,
                final(cache)@,
            ),
{
}

} // verus!
