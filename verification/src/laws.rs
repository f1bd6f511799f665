//! What holds of the cache as a whole: of any read, of a read after another, and of any run of
//! reads.

use solana_clock::{Epoch, Slot};
use vstd::arithmetic::logarithm::{lemma_log0, lemma_log_s, log};
use vstd::arithmetic::power2::{
    lemma2_to64, lemma2_to64_rest, lemma_pow2_adds, lemma_pow2_strictly_increases,
    lemma_pow2_unfold, pow2,
};
use vstd::prelude::*;

use crate::bank::{BankForks, EpochSchedule, MINIMUM_SLOTS_PER_EPOCH};
use crate::cache::{is_expired, CacheView};
use crate::entries::{
    entry_of, has_distinct_epochs, lemma_drop_last, lemma_entry_at, lemma_entry_of,
    lemma_entry_of_front, lemma_stored, lemma_used, lemma_without, lemma_without_is_removal,
    without, EntryView,
};
use crate::gossip::ClusterInfo;
use crate::net::{lemma_value_of_absent, value_of, Pubkey, SocketAddr};
use crate::nodes::{
    deduplicated, has_distinct_sockets, has_distinct_stakes, is_eligible, is_socket_list,
    is_stake_order, lemma_deduplicated, lemma_deduplicated_distinct,
    lemma_distinct_sockets_permuted, lemma_reachable_comes_from, lemma_reachable_contains,
    lemma_reachable_permuted, lemma_stake_order_is_unique, node_of, reachable, resolved,
    resolved_socket, Node,
};
use crate::port_override::AlpenglowPortOverride;
use crate::time::Instant;

verus! {

/// One read of the cache by slot: what it was handed and what it returned.
pub struct Read<'a> {
    pub slot: Slot,
    pub bank_forks: BankForks,
    pub cluster_info: ClusterInfo,
    pub port_override: Option<&'a AlpenglowPortOverride>,
    pub access_time: Instant,
    pub sockets: Seq<SocketAddr>,
    pub refreshed: bool,
}

impl<'a> Read<'a> {
    /// The epoch that is read.
    pub open spec fn epoch(self) -> Epoch {
        self.bank_forks.working_bank.epoch_schedule.epoch_of(self.slot)
    }

    /// Whether this read takes a cache from the state `before` to the state `after`.
    pub open spec fn takes(self, before: CacheView, after: CacheView) -> bool {
        before.reads_slot(
            self.slot,
            self.bank_forks,
            self.cluster_info,
            self.port_override,
            self.access_time,
            self.sockets,
            self.refreshed,
            after,
        )
    }

    /// Whether this read works the sockets out, of a cache in the state `before`.
    pub open spec fn works_out(self, before: CacheView) -> bool {
        before.sees_new_override(self.port_override) || before.is_stale(
            self.epoch(),
            self.access_time,
        )
    }
}

/// The state of a cache that has room for something and obeys its invariant.
pub open spec fn is_usable(cache: CacheView) -> bool {
    cache.wf() && cache.capacity > 0
}

/// A read keeps the invariant of the cache and what the cache was made with.
pub proof fn law_reads_keep_the_cache_usable(before: CacheView, read: Read, after: CacheView)
    requires
        is_usable(before),
        read.takes(before, after),
    ensures
        is_usable(after),
        after.capacity == before.capacity,
        after.ttl == before.ttl,
        after.include_self == before.include_self,
{
    let entry = EntryView { alpenglow_sockets: read.sockets, creation_time: read.access_time };
    lemma_stored(before.entries, before.capacity, read.epoch(), entry);
    lemma_used(before.entries, read.epoch());
}

/// After a read the cache holds for its epoch what the read returned, as the most recently used
/// entry. It was made at the time of the read where the read worked it out, else it is as old as
/// before.
pub proof fn law_a_read_is_held(before: CacheView, read: Read, after: CacheView)
    requires
        is_usable(before),
        read.takes(before, after),
    ensures
        after.entry(read.epoch()) == Some(
            EntryView {
                alpenglow_sockets: read.sockets,
                creation_time: if read.works_out(before) {
                    read.access_time
                } else {
                    before.entry(read.epoch())->0.creation_time
                },
            },
        ),
        after.entries.len() > 0,
        after.entries[0].0 == read.epoch(),
{
    let entry = EntryView { alpenglow_sockets: read.sockets, creation_time: read.access_time };
    lemma_stored(before.entries, before.capacity, read.epoch(), entry);
    lemma_used(before.entries, read.epoch());
}

/// A read right after another of the same epoch, with the port override unchanged, works the
/// sockets out again exactly where the time to live of the entry has passed: not yet at the
/// deadline. Until then it returns the same sockets, whatever has become of the banks and of
/// gossip, and changes nothing.
pub proof fn law_reread(
    before: CacheView,
    first: Read,
    between: CacheView,
    second: Read,
    after: CacheView,
)
    requires
        is_usable(before),
        first.takes(before, between),
        second.takes(between, after),
        second.epoch() == first.epoch(),
        !between.sees_new_override(second.port_override),
    ensures
        first.works_out(before) ==> second.refreshed == is_expired(
            first.access_time,
            before.ttl,
            second.access_time,
        ),
        !first.works_out(before) ==> second.refreshed == is_expired(
            before.entry(first.epoch())->0.creation_time,
            before.ttl,
            second.access_time,
        ),
        !second.refreshed ==> second.sockets == first.sockets && after == between,
{
    law_reads_keep_the_cache_usable(before, first, between);
    law_a_read_is_held(before, first, between);
    let epoch = first.epoch();
    if !second.refreshed {
        lemma_used(between.entries, epoch);
        lemma_entry_at(between.entries, 0);
        lemma_without_is_removal(between.entries, 0);
        assert(between.entries =~= seq![between.entries[0]] + between.entries.remove(0));
    }
}

/// The first read of an epoch works the sockets out and says so, unless the port override has
/// changed, when it works them out without saying so.
pub proof fn law_first_read(before: CacheView, read: Read, after: CacheView)
    requires
        is_usable(before),
        read.takes(before, after),
        before.entry(read.epoch()) is None,
    ensures
        before.is_current(
            read.sockets,
            read.epoch(),
            read.bank_forks,
            read.cluster_info,
            read.port_override,
        ),
        !before.sees_new_override(read.port_override) ==> read.refreshed,
        after.entry(read.epoch()) == Some(
            EntryView { alpenglow_sockets: read.sockets, creation_time: read.access_time },
        ),
{
    law_a_read_is_held(before, read, after);
}

/// A changed port override takes effect at the next read, however fresh the entry is, and is acted
/// on once: the cache has then seen it.
pub proof fn law_override_takes_effect(before: CacheView, read: Read, after: CacheView)
    requires
        is_usable(before),
        read.takes(before, after),
        before.sees_new_override(read.port_override),
    ensures
        before.is_current(
            read.sockets,
            read.epoch(),
            read.bank_forks,
            read.cluster_info,
            read.port_override,
        ),
        after.entry(read.epoch()) == Some(
            EntryView { alpenglow_sockets: read.sockets, creation_time: read.access_time },
        ),
        !after.sees_new_override(read.port_override),
{
    law_a_read_is_held(before, read, after);
}

/// A read keeps the entry of every other epoch, also one that has expired, but for one case: where
/// the epoch that is read is new and the cache is full, the least recently used entry is gone.
pub proof fn law_other_epochs(before: CacheView, read: Read, after: CacheView, other: Epoch)
    requires
        is_usable(before),
        read.takes(before, after),
        other != read.epoch(),
    ensures
        after.entry(other) == if before.entry(read.epoch()) is None && before.entries.len()
            == before.capacity && before.entries.last().0 == other {
            None
        } else {
            before.entry(other)
        },
{
    let epoch = read.epoch();
    let entries = before.entries;
    let front = (
        epoch,
        EntryView { alpenglow_sockets: read.sockets, creation_time: read.access_time },
    );
    lemma_used(entries, epoch);
    lemma_without(entries, epoch);
    if read.works_out(before) {
        if before.entry(epoch) is Some {
            lemma_entry_of_front(front, without(entries, epoch), other);
            assert(entry_of(without(entries, epoch), other) == entry_of(
                entries,
                other,
            ));
        } else if entries.len() == before.capacity {
            lemma_drop_last(entries, other);
            lemma_entry_of_front(front, entries.drop_last(), other);
        } else {
            lemma_entry_of_front(front, entries, other);
        }
    }
}

/// A read of a new epoch adds an entry while there is room. No other read changes their number.
pub proof fn law_number_of_entries(before: CacheView, read: Read, after: CacheView)
    requires
        is_usable(before),
        read.takes(before, after),
    ensures
        after.entries.len() == if before.entry(read.epoch()) is None && before.entries.len()
            < before.capacity {
            before.entries.len() + 1
        } else {
            before.entries.len()
        },
{
    lemma_used(before.entries, read.epoch());
    lemma_without(before.entries, read.epoch());
}

/// Every socket in a list belongs to a node with stake whose socket gossip knows, and which is not
/// the running validator where that one is left out. It is the socket from gossip unless the port
/// override names another.
pub proof fn law_only_staked_nodes_are_listed(
    sockets: Seq<SocketAddr>,
    staked_nodes: Seq<(Pubkey, u64)>,
    include_self: bool,
    cluster_info: ClusterInfo,
    port_override: Option<&AlpenglowPortOverride>,
    i: int,
)
    requires
        is_socket_list(sockets, staked_nodes, include_self, cluster_info, port_override),
        0 <= i < sockets.len(),
    ensures
        exists|k: int|
            {
                &&& 0 <= k < staked_nodes.len()
                &&& is_eligible(
                    (#[trigger] staked_nodes[k]).0,
                    staked_nodes[k].1,
                    include_self,
                    cluster_info,
                )
                &&& node_of(staked_nodes[k], include_self, cluster_info) is Some
                &&& sockets[i] == resolved_socket(
                    node_of(staked_nodes[k], include_self, cluster_info)->0,
                    port_override,
                )
            },
{
    broadcast use vstd::seq_lib::group_to_multiset_ensures;

    let nodes = reachable(staked_nodes, include_self, cluster_info);
    let kept = deduplicated(nodes);
    let order = choose|order: Seq<Node>|
        #[trigger] is_stake_order(order, kept) && sockets == resolved(order, port_override);
    assert(order.contains(order[i]));
    assert(order.to_multiset().count(order[i]) > 0);
    assert(kept.contains(order[i]));
    lemma_deduplicated(nodes);
    let j = choose|j: int| 0 <= j < kept.len() && kept[j] == order[i];
    assert(nodes.contains(kept[j]));
    let m = choose|m: int| 0 <= m < nodes.len() && nodes[m] == order[i];
    lemma_reachable_comes_from(staked_nodes, include_self, cluster_info, m);
}

/// The running validator's own socket is not in a list that leaves the validator out, unless
/// another node has published the same socket.
pub proof fn law_self_is_left_out(
    sockets: Seq<SocketAddr>,
    staked_nodes: Seq<(Pubkey, u64)>,
    cluster_info: ClusterInfo,
    own_socket: SocketAddr,
)
    requires
        is_socket_list(sockets, staked_nodes, false, cluster_info, None),
        forall|pubkey: Pubkey|
            pubkey != cluster_info.id ==> #[trigger] cluster_info.alpenglow_socket(pubkey) != Some(
                own_socket,
            ),
    ensures
        !sockets.contains(own_socket),
{
    if sockets.contains(own_socket) {
        let i = choose|i: int| 0 <= i < sockets.len() && sockets[i] == own_socket;
        law_only_staked_nodes_are_listed(sockets, staked_nodes, false, cluster_info, None, i);
        let k = choose|k: int|
            {
                &&& 0 <= k < staked_nodes.len()
                &&& is_eligible((#[trigger] staked_nodes[k]).0, staked_nodes[k].1, false, cluster_info)
                &&& node_of(staked_nodes[k], false, cluster_info) is Some
                &&& sockets[i] == resolved_socket(
                    node_of(staked_nodes[k], false, cluster_info)->0,
                    None,
                )
            };
        assert(cluster_info.alpenglow_socket(staked_nodes[k].0) == Some(own_socket));
    }
}

/// Without a port override, the socket of every eligible node is in the list, where gossip knows
/// it.
pub proof fn law_every_socket_is_listed(
    sockets: Seq<SocketAddr>,
    staked_nodes: Seq<(Pubkey, u64)>,
    include_self: bool,
    cluster_info: ClusterInfo,
    k: int,
)
    requires
        is_socket_list(sockets, staked_nodes, include_self, cluster_info, None),
        0 <= k < staked_nodes.len(),
        is_eligible(staked_nodes[k].0, staked_nodes[k].1, include_self, cluster_info),
        cluster_info.alpenglow_socket(staked_nodes[k].0) is Some,
    ensures
        sockets.contains(cluster_info.alpenglow_socket(staked_nodes[k].0)->0),
{
    broadcast use vstd::seq_lib::group_to_multiset_ensures;

    let nodes = reachable(staked_nodes, include_self, cluster_info);
    let kept = deduplicated(nodes);
    let order = choose|order: Seq<Node>|
        #[trigger] is_stake_order(order, kept) && sockets == resolved(order, None);
    lemma_reachable_contains(staked_nodes, include_self, cluster_info, k);
    let node = node_of(staked_nodes[k], include_self, cluster_info)->0;
    let j = choose|j: int| 0 <= j < nodes.len() && nodes[j] == node;
    lemma_deduplicated(nodes);
    assert(nodes[j].alpenglow_socket == node.alpenglow_socket);
    let i = choose|i: int|
        0 <= i < kept.len() && (#[trigger] kept[i]).alpenglow_socket == nodes[j].alpenglow_socket;
    assert(kept.contains(kept[i]));
    assert(kept.to_multiset().count(kept[i]) > 0);
    assert(order.contains(kept[i]));
    let p = choose|p: int| 0 <= p < order.len() && order[p] == kept[i];
    assert(sockets[p] == node.alpenglow_socket);
}

/// Where no two reachable nodes share a socket, the list has one socket for each of them: the one
/// from gossip or the one that the port override names.
pub proof fn law_one_socket_for_each_node(
    sockets: Seq<SocketAddr>,
    staked_nodes: Seq<(Pubkey, u64)>,
    include_self: bool,
    cluster_info: ClusterInfo,
    port_override: Option<&AlpenglowPortOverride>,
)
    requires
        is_socket_list(sockets, staked_nodes, include_self, cluster_info, port_override),
        has_distinct_sockets(reachable(staked_nodes, include_self, cluster_info)),
    ensures
        sockets.len() == reachable(staked_nodes, include_self, cluster_info).len(),
        sockets.to_multiset() == resolved(
            reachable(staked_nodes, include_self, cluster_info),
            port_override,
        ).to_multiset(),
{
    broadcast use vstd::seq_lib::group_to_multiset_ensures;

    let nodes = reachable(staked_nodes, include_self, cluster_info);
    lemma_deduplicated_distinct(nodes);
    let order = choose|order: Seq<Node>|
        #[trigger] is_stake_order(order, deduplicated(nodes)) && sockets == resolved(
            order,
            port_override,
        );
    assert(order.len() == nodes.to_multiset().len());
    lemma_resolved_permuted(order, nodes, port_override);
}

proof fn lemma_resolved_permuted(
    first: Seq<Node>,
    second: Seq<Node>,
    port_override: Option<&AlpenglowPortOverride>,
)
    requires
        first.to_multiset() == second.to_multiset(),
    ensures
        resolved(first, port_override).to_multiset() == resolved(second, port_override).to_multiset(),
    decreases first.len(),
{
    broadcast use vstd::seq_lib::group_to_multiset_ensures;

    assert(first.len() == second.to_multiset().len());
    let a = resolved(first, port_override);
    let b = resolved(second, port_override);
    if first.len() == 0 {
        assert(first =~= second);
    } else {
        let last = first.len() - 1;
        assert(first.contains(first[last]));
        assert(first.to_multiset().count(first[last]) > 0);
        assert(second.contains(first[last]));
        let k = choose|k: int| 0 <= k < second.len() && second[k] == first[last];
        assert(first.remove(last).to_multiset() == second.remove(k).to_multiset());
        lemma_resolved_permuted(first.remove(last), second.remove(k), port_override);
        assert(resolved(first.remove(last), port_override) =~= a.remove(last));
        assert(resolved(second.remove(k), port_override) =~= b.remove(k));
        assert(a[last] == b[k]);
        assert(a.contains(a[last]) && b.contains(b[k]));
        assert(a.to_multiset().count(a[last]) > 0 && b.to_multiset().count(b[k]) > 0);
        assert(a.to_multiset() =~= a.remove(last).to_multiset().insert(a[last]));
        assert(b.to_multiset() =~= b.remove(k).to_multiset().insert(b[k]));
    }
}

/// Where the nodes that are kept differ in stake, the list is determined.
pub proof fn law_list_is_determined(
    first: Seq<SocketAddr>,
    second: Seq<SocketAddr>,
    staked_nodes: Seq<(Pubkey, u64)>,
    include_self: bool,
    cluster_info: ClusterInfo,
    port_override: Option<&AlpenglowPortOverride>,
)
    requires
        is_socket_list(first, staked_nodes, include_self, cluster_info, port_override),
        is_socket_list(second, staked_nodes, include_self, cluster_info, port_override),
        has_distinct_stakes(deduplicated(reachable(staked_nodes, include_self, cluster_info))),
    ensures
        first == second,
{
    let kept = deduplicated(reachable(staked_nodes, include_self, cluster_info));
    let a = choose|order: Seq<Node>|
        #[trigger] is_stake_order(order, kept) && first == resolved(order, port_override);
    let b = choose|order: Seq<Node>|
        #[trigger] is_stake_order(order, kept) && second == resolved(order, port_override);
    lemma_stake_order_is_unique(a, b, kept);
}

/// Where no two reachable nodes share a socket, the order in which the stakes are walked does not
/// matter.
pub proof fn law_walk_order_does_not_matter(
    sockets: Seq<SocketAddr>,
    walked: Seq<(Pubkey, u64)>,
    otherwise_walked: Seq<(Pubkey, u64)>,
    include_self: bool,
    cluster_info: ClusterInfo,
    port_override: Option<&AlpenglowPortOverride>,
)
    requires
        walked.to_multiset() == otherwise_walked.to_multiset(),
        has_distinct_sockets(reachable(walked, include_self, cluster_info)),
    ensures
        is_socket_list(sockets, walked, include_self, cluster_info, port_override)
            <==> is_socket_list(
            sockets,
            otherwise_walked,
            include_self,
            cluster_info,
            port_override,
        ),
{
    let a = reachable(walked, include_self, cluster_info);
    let b = reachable(otherwise_walked, include_self, cluster_info);
    lemma_reachable_permuted(walked, otherwise_walked, include_self, cluster_info);
    lemma_distinct_sockets_permuted(a, b);
    lemma_deduplicated_distinct(a);
    lemma_deduplicated_distinct(b);
    assert forall|order: Seq<Node>| #[trigger] is_stake_order(order, a) <==> is_stake_order(
        order,
        b,
    ) by {}
    if is_socket_list(sockets, walked, include_self, cluster_info, port_override) {
        let order = choose|order: Seq<Node>|
            #[trigger] is_stake_order(order, a) && sockets == resolved(order, port_override);
        assert(is_stake_order(order, b));
    }
    if is_socket_list(sockets, otherwise_walked, include_self, cluster_info, port_override) {
        let order = choose|order: Seq<Node>|
            #[trigger] is_stake_order(order, b) && sockets == resolved(order, port_override);
        assert(is_stake_order(order, a));
    }
}

/// A port override that names no reachable node, as one that was cleared, is as none.
pub proof fn law_override_of_no_node(
    sockets: Seq<SocketAddr>,
    staked_nodes: Seq<(Pubkey, u64)>,
    include_self: bool,
    cluster_info: ClusterInfo,
    port_override: &AlpenglowPortOverride,
)
    requires
        forall|i: int, k: int|
            0 <= i < port_override.overrides().len() && 0 <= k < staked_nodes.len() ==> (
            #[trigger] port_override.overrides()[i]).0 != (#[trigger] staked_nodes[k]).0,
    ensures
        is_socket_list(sockets, staked_nodes, include_self, cluster_info, Some(port_override))
            <==> is_socket_list(sockets, staked_nodes, include_self, cluster_info, None),
{
    broadcast use vstd::seq_lib::group_to_multiset_ensures;

    let nodes = reachable(staked_nodes, include_self, cluster_info);
    let kept = deduplicated(nodes);
    assert forall|order: Seq<Node>| #[trigger] is_stake_order(order, kept) implies resolved(
        order,
        Some(port_override),
    ) == resolved(order, None) by {
        assert forall|p: int| 0 <= p < order.len() implies resolved_socket(
            #[trigger] order[p],
            Some(port_override),
        ) == resolved_socket(order[p], None) by {
            assert(order.contains(order[p]));
            assert(order.to_multiset().count(order[p]) > 0);
            assert(kept.contains(order[p]));
            lemma_deduplicated(nodes);
            let j = choose|j: int| 0 <= j < kept.len() && kept[j] == order[p];
            assert(nodes.contains(kept[j]));
            let m = choose|m: int| 0 <= m < nodes.len() && nodes[m] == order[p];
            lemma_reachable_comes_from(staked_nodes, include_self, cluster_info, m);
            let k = choose|k: int|
                0 <= k < staked_nodes.len() && node_of(
                    #[trigger] staked_nodes[k],
                    include_self,
                    cluster_info,
                ) == Some(nodes[m]);
            assert(staked_nodes[k].0 == order[p].pubkey);
            lemma_value_of_absent(port_override.overrides(), order[p].pubkey);
        }
        assert(resolved(order, Some(port_override)) =~= resolved(order, None));
    }
}

/// Of an epoch that neither bank knows, the list is empty.
pub proof fn law_unknown_epoch(
    cache: CacheView,
    sockets: Seq<SocketAddr>,
    epoch: Epoch,
    bank_forks: BankForks,
    cluster_info: ClusterInfo,
    port_override: Option<&AlpenglowPortOverride>,
)
    requires
        cache.is_current(sockets, epoch, bank_forks, cluster_info, port_override),
        bank_forks.root_bank.staked_nodes(epoch) is None,
        bank_forks.working_bank.staked_nodes(epoch) is None,
    ensures
        sockets == Seq::<SocketAddr>::empty(),
{
    broadcast use vstd::seq_lib::group_to_multiset_ensures;

    let nodes = reachable(bank_forks.staked_nodes(epoch), cache.include_self, cluster_info);
    let order = choose|order: Seq<Node>|
        #[trigger] is_stake_order(order, deduplicated(nodes)) && sockets == resolved(
            order,
            port_override,
        );
    assert(order.len() == deduplicated(nodes).to_multiset().len());
    assert(deduplicated(nodes).len() == 0);
    assert(sockets =~= Seq::<SocketAddr>::empty());
}

/// A read depends on no stakes but those of its epoch, and on those of the working bank only where
/// the root bank does not know the epoch.
pub proof fn law_only_the_epoch_counts(
    before: CacheView,
    read: Read,
    after: CacheView,
    bank_forks: BankForks,
)
    requires
        read.takes(before, after),
        bank_forks.working_bank.epoch_schedule == read.bank_forks.working_bank.epoch_schedule,
        bank_forks.root_bank.staked_nodes(read.epoch()) == read.bank_forks.root_bank.staked_nodes(
            read.epoch(),
        ),
        read.bank_forks.root_bank.staked_nodes(read.epoch()) is None
            ==> bank_forks.working_bank.staked_nodes(read.epoch())
            == read.bank_forks.working_bank.staked_nodes(read.epoch()),
    ensures
        (Read { bank_forks, ..read }).takes(before, after),
{
    assert(bank_forks.staked_nodes(read.epoch()) == read.bank_forks.staked_nodes(read.epoch()));
}

/// A read that works nothing out depends on neither stakes nor gossip.
pub proof fn law_a_fresh_entry_needs_no_banks(
    before: CacheView,
    read: Read,
    after: CacheView,
    bank_forks: BankForks,
    cluster_info: ClusterInfo,
)
    requires
        read.takes(before, after),
        !read.works_out(before),
        bank_forks.working_bank.epoch_schedule == read.bank_forks.working_bank.epoch_schedule,
    ensures
        (Read { bank_forks, cluster_info, ..read }).takes(before, after),
{
}

/// To ask whether an epoch needs a refresh, just before it is read, makes no difference.
pub proof fn law_asking_makes_no_difference(before: CacheView, read: Read, after: CacheView)
    requires
        is_usable(before),
    ensures
        read.takes(before.after_use(read.epoch()), after) <==> read.takes(before, after),
{
    let entry = EntryView { alpenglow_sockets: read.sockets, creation_time: read.access_time };
    lemma_stored(before.entries, before.capacity, read.epoch(), entry);
    lemma_used(before.entries, read.epoch());
}

/// A table in which no key stands twice is a map: it holds a value for a key exactly where the pair
/// stands in it, wherever that is.
pub proof fn law_a_table_is_a_map<V>(table: Seq<(Pubkey, V)>, key: Pubkey, value: V)
    requires
        forall|i: int, j: int|
            0 <= i < j < table.len() ==> (#[trigger] table[i]).0 != (#[trigger] table[j]).0,
    ensures
        value_of(table, key) == Some(value) <==> table.contains((key, value)),
    decreases table.len(),
{
    if table.len() > 0 {
        let rest = table.drop_first();
        assert forall|i: int, j: int| 0 <= i < j < rest.len() implies (#[trigger] rest[i]).0 != (
        #[trigger] rest[j]).0 by {
            assert(rest[i] == table[i + 1] && rest[j] == table[j + 1]);
        }
        law_a_table_is_a_map(rest, key, value);
        if table.contains((key, value)) {
            let i = choose|i: int| 0 <= i < table.len() && table[i] == (key, value);
            if i > 0 {
                assert(table[0].0 != table[i].0);
                assert(rest[i - 1] == (key, value));
            }
        }
        if rest.contains((key, value)) {
            let i = choose|i: int| 0 <= i < rest.len() && rest[i] == (key, value);
            assert(table[i + 1] == (key, value));
        }
        assert(table[0].0 == key && value_of(table, key) == Some(value) ==> table[0] == (key, value));
    }
}

/// The logarithm to the base two is rounded down.
proof fn lemma_log2_rounds_down(x: int)
    requires
        x >= 1,
    ensures
        log(2, x) >= 0,
        pow2(log(2, x) as nat) <= x < pow2((log(2, x) + 1) as nat),
    decreases x,
{
    lemma2_to64();
    if x < 2 {
        lemma_log0(2, x);
    } else {
        lemma_log_s(2, x);
        lemma_log2_rounds_down(x / 2);
        lemma_pow2_unfold(log(2, x) as nat);
        lemma_pow2_unfold((log(2, x) + 1) as nat);
    }
}

/// The epoch `epoch` of a warmup has `32 * 2^epoch` slots and begins where those before it end.
pub proof fn law_warmup_epochs(schedule: EpochSchedule, slot: Slot, epoch: Epoch)
    requires
        slot < schedule.first_normal_slot,
        schedule.covers(slot),
    ensures
        schedule.epoch_of(slot) == epoch <==> MINIMUM_SLOTS_PER_EPOCH * (pow2(epoch as nat) - 1)
            <= slot < MINIMUM_SLOTS_PER_EPOCH * (pow2((epoch + 1) as nat) - 1),
{
    let x = slot + 32;
    lemma2_to64();
    assert(log(2, 32) == 5) by {
        lemma_log2_rounds_down(32);
        let n = log(2, 32) as nat;
        if n < 5 {
            if n + 1 < 5 {
                lemma_pow2_strictly_increases(n + 1, 5);
            }
        } else if n > 5 {
            lemma_pow2_strictly_increases(5, n);
        }
    }
    lemma_log2_rounds_down(x);
    let n = log(2, x) as nat;
    if n < 5 {
        if n + 1 < 5 {
            lemma_pow2_strictly_increases(n + 1, 5);
        }
    }
    lemma2_to64_rest();
    if n > 63 {
        lemma_pow2_strictly_increases(63, n);
    }
    let e = epoch as nat;
    lemma_pow2_adds(e, 5);
    lemma_pow2_adds(e + 1, 5);
    if n < e + 5 {
        if n + 1 < e + 5 {
            lemma_pow2_strictly_increases(n + 1, e + 5);
        }
    } else if n > e + 5 {
        if n > e + 6 {
            lemma_pow2_strictly_increases(e + 6, n);
        }
    }
}

/// Whether `reads`, one after the other, take a cache from the state `before` to the state `after`.
pub open spec fn run(before: CacheView, reads: Seq<Read>, after: CacheView) -> bool
    decreases reads.len(),
{
    if reads.len() == 0 {
        before == after
    } else {
        exists|between: CacheView| #[trigger]
            reads.last().takes(between, after) && run(before, reads.drop_last(), between)
    }
}

/// The epochs that `reads` read.
pub open spec fn epochs_read(reads: Seq<Read>) -> Set<Epoch>
    decreases reads.len(),
{
    if reads.len() == 0 {
        Set::empty()
    } else {
        epochs_read(reads.drop_last()).insert(reads.last().epoch())
    }
}

/// The epochs of the entries that were used more recently than the one at `i`.
spec fn ahead(entries: Seq<(Epoch, EntryView)>, i: int) -> Set<Epoch> {
    entries.take(i).map_values(|entry: (Epoch, EntryView)| entry.0).to_set()
}

proof fn lemma_ahead(entries: Seq<(Epoch, EntryView)>, i: int)
    requires
        has_distinct_epochs(entries),
        0 <= i <= entries.len(),
    ensures
        ahead(entries, i).finite(),
        ahead(entries, i).len() == i,
        forall|epoch: Epoch| #[trigger]
            ahead(entries, i).contains(epoch) <==> exists|k: int|
                0 <= k < i && (#[trigger] entries[k]).0 == epoch,
{
    let epochs = entries.take(i).map_values(|entry: (Epoch, EntryView)| entry.0);
    assert(epochs.no_duplicates()) by {
        assert forall|a: int, b: int|
            0 <= a < epochs.len() && 0 <= b < epochs.len() && a != b implies epochs[a]
            != epochs[b] by {
            if a < b {
                assert(entries[a].0 != entries[b].0);
            } else {
                assert(entries[b].0 != entries[a].0);
            }
        }
    }
    epochs.unique_seq_to_set();
    assert forall|epoch: Epoch| #[trigger] ahead(entries, i).contains(epoch) <==> exists|k: int|
        0 <= k < i && (#[trigger] entries[k]).0 == epoch by {
        if ahead(entries, i).contains(epoch) {
            assert(epochs.contains(epoch));
            let k = choose|k: int| 0 <= k < epochs.len() && epochs[k] == epoch;
            assert(entries[k].0 == epoch);
        }
        if exists|k: int| 0 <= k < i && (#[trigger] entries[k]).0 == epoch {
            let k = choose|k: int| 0 <= k < i && (#[trigger] entries[k]).0 == epoch;
            assert(epochs[k] == epoch);
            assert(epochs.contains(epoch));
        }
    }
}

/// The entries behind the front after a read.
proof fn lemma_behind_the_front(before: CacheView, read: Read, after: CacheView)
    requires
        is_usable(before),
        read.takes(before, after),
    ensures
        after.entries.len() > 0,
        after.entries[0].0 == read.epoch(),
        after.entries.drop_first() == if before.entry(read.epoch()) is Some {
            without(before.entries, read.epoch())
        } else if before.entries.len() == before.capacity {
            before.entries.drop_last()
        } else {
            before.entries
        },
{
    let rest = if before.entry(read.epoch()) is Some {
        without(before.entries, read.epoch())
    } else if before.entries.len() == before.capacity {
        before.entries.drop_last()
    } else {
        before.entries
    };
    assert(after.entries =~= seq![after.entries[0]] + rest);
    assert(after.entries.drop_first() =~= rest);
}

/// Whether the entry for `epoch` is held and the epochs used more recently are those in `since`;
/// or it is gone and there are too many of them.
spec fn tracks(cache: CacheView, epoch: Epoch, since: Set<Epoch>) -> bool {
    &&& since.finite()
    &&& match cache.entry(epoch) {
        Some(_) => exists|i: int|
            0 <= i < cache.entries.len() && (#[trigger] cache.entries[i]).0 == epoch && ahead(
                cache.entries,
                i,
            ) == since,
        None => since.len() >= cache.capacity,
    }
}

#[verifier::rlimit(50)]
#[verifier::spinoff_prover]
proof fn lemma_tracks(
    before: CacheView,
    read: Read,
    after: CacheView,
    epoch: Epoch,
    since: Set<Epoch>,
)
    requires
        is_usable(before),
        read.takes(before, after),
        read.epoch() != epoch,
        tracks(before, epoch, since),
    ensures
        tracks(after, epoch, since.insert(read.epoch())),
{
    let new = read.epoch();
    let entries = before.entries;
    let later = after.entries;
    law_reads_keep_the_cache_usable(before, read, after);
    law_other_epochs(before, read, after, epoch);
    lemma_behind_the_front(before, read, after);
    if before.entry(epoch) is Some {
        let i = choose|i: int|
            0 <= i < entries.len() && (#[trigger] entries[i]).0 == epoch && ahead(entries, i)
                == since;
        lemma_ahead(entries, i);
        lemma_entry_of(entries, new);
        let rest = later.drop_first();
        if before.entry(new) is Some {
            let j = choose|j: int| 0 <= j < entries.len() && (#[trigger] entries[j]).0 == new;
            lemma_without_is_removal(entries, j);
            let place = if j < i {
                i
            } else {
                i + 1
            };
            assert(later[place] == rest[place - 1]);
            assert(later[place].0 == epoch);
            lemma_ahead(later, place);
            assert forall|e: Epoch| #[trigger]
                ahead(later, place).contains(e) <==> since.insert(new).contains(e) by {
                if ahead(later, place).contains(e) {
                    let k = choose|k: int| 0 <= k < place && (#[trigger] later[k]).0 == e;
                    if k > 0 {
                        assert(later[k] == rest[k - 1]);
                        let m = if k - 1 < j {
                            k - 1
                        } else {
                            k
                        };
                        assert(rest[k - 1] == entries[m]);
                        assert(m < i);
                    }
                }
                if since.insert(new).contains(e) {
                    if e == new {
                        assert(later[0].0 == e);
                    } else {
                        let m = choose|m: int| 0 <= m < i && (#[trigger] entries[m]).0 == e;
                        assert(m != j);
                        let k = if m < j {
                            m
                        } else {
                            m - 1
                        };
                        assert(rest[k] == entries[m]);
                        assert(later[k + 1] == rest[k]);
                        assert(k + 1 < place);
                    }
                }
            }
            assert(ahead(later, place) =~= since.insert(new));
        } else {
            assert(!since.contains(new)) by {
                if since.contains(new) {
                    let k = choose|k: int| 0 <= k < i && (#[trigger] entries[k]).0 == new;
                    assert(entries[k].0 == new);
                }
            }
            if entries.len() == before.capacity && i == entries.len() - 1 {
                assert(since.insert(new).len() == before.capacity);
            } else {
                if entries.len() == before.capacity {
                    assert(entries[i].0 != entries[entries.len() - 1].0);
                }
                let place = i + 1;
                assert(rest[i] == entries[i]);
                assert(later[place] == rest[i]);
                lemma_ahead(later, place);
                assert forall|e: Epoch| #[trigger]
                    ahead(later, place).contains(e) <==> since.insert(new).contains(e) by {
                    if ahead(later, place).contains(e) {
                        let k = choose|k: int| 0 <= k < place && (#[trigger] later[k]).0 == e;
                        if k > 0 {
                            assert(later[k] == rest[k - 1]);
                            assert(rest[k - 1] == entries[k - 1]);
                        }
                    }
                    if since.insert(new).contains(e) {
                        if e == new {
                            assert(later[0].0 == e);
                        } else {
                            let m = choose|m: int| 0 <= m < i && (#[trigger] entries[m]).0 == e;
                            assert(rest[m] == entries[m]);
                            assert(later[m + 1] == rest[m]);
                        }
                    }
                }
                assert(ahead(later, place) =~= since.insert(new));
            }
        }
    } else {
        assert(since.insert(new).len() >= since.len());
    }
}

proof fn lemma_run(between: CacheView, epoch: Epoch, reads: Seq<Read>, after: CacheView)
    requires
        is_usable(between),
        tracks(between, epoch, Set::empty()),
        between.entry(epoch) is Some,
        run(between, reads, after),
        forall|k: int| 0 <= k < reads.len() ==> (#[trigger] reads[k]).epoch() != epoch,
    ensures
        is_usable(after),
        after.capacity == between.capacity,
        tracks(after, epoch, epochs_read(reads)),
        after.entry(epoch) is Some ==> after.entry(epoch) == between.entry(epoch),
    decreases reads.len(),
{
    if reads.len() > 0 {
        let earlier = reads.drop_last();
        let middle = choose|middle: CacheView| #[trigger]
            reads.last().takes(middle, after) && run(between, earlier, middle);
        assert forall|k: int| 0 <= k < earlier.len() implies (#[trigger] earlier[k]).epoch()
            != epoch by {
            assert(earlier[k] == reads[k]);
        }
        lemma_run(between, epoch, earlier, middle);
        assert(reads[reads.len() - 1].epoch() != epoch);
        law_reads_keep_the_cache_usable(middle, reads.last(), after);
        law_other_epochs(middle, reads.last(), after, epoch);
        lemma_tracks(middle, reads.last(), after, epoch, epochs_read(earlier));
    }
}

/// After a read of an epoch and any run of reads of other epochs, the entry is still there, and
/// unchanged, exactly where fewer other epochs have been read than the cache has room for.
pub proof fn law_least_recently_used_goes(
    before: CacheView,
    first: Read,
    between: CacheView,
    reads: Seq<Read>,
    after: CacheView,
)
    requires
        is_usable(before),
        first.takes(before, between),
        run(between, reads, after),
        forall|k: int| 0 <= k < reads.len() ==> (#[trigger] reads[k]).epoch() != first.epoch(),
    ensures
        epochs_read(reads).finite(),
        after.entry(first.epoch()) is Some <==> epochs_read(reads).len() < before.capacity,
        after.entry(first.epoch()) is Some ==> after.entry(first.epoch()) == between.entry(
            first.epoch(),
        ),
{
    let epoch = first.epoch();
    law_reads_keep_the_cache_usable(before, first, between);
    law_a_read_is_held(before, first, between);
    lemma_ahead(between.entries, 0);
    assert(ahead(between.entries, 0) =~= Set::<Epoch>::empty());
    assert(between.entries[0].0 == epoch);
    lemma_run(between, epoch, reads, after);
    if after.entry(epoch) is Some {
        let i = choose|i: int|
            0 <= i < after.entries.len() && (#[trigger] after.entries[i]).0 == epoch && ahead(
                after.entries,
                i,
            ) == epochs_read(reads);
        lemma_ahead(after.entries, i);
    }
}

} // verus!
