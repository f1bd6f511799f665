//! From the stakes of an epoch to the list of sockets to send to.

use vstd::prelude::*;

use crate::gossip::ClusterInfo;
use crate::net::{find_value, value_of, Pubkey, SocketAddr};
use crate::port_override::AlpenglowPortOverride;

verus! {

/// A staked validator that can be reached.
#[derive(Clone, Copy, Debug, PartialEq, Eq)]
pub struct Node {
    pub pubkey: Pubkey,
    pub stake: u64,
    pub alpenglow_socket: SocketAddr,
}

/// Whether a node with this identity and stake is one to send to. A node without stake is not, nor
/// is the running validator itself unless `include_self` is set.
pub open spec fn is_eligible(
    pubkey: Pubkey,
    stake: u64,
    include_self: bool,
    cluster_info: ClusterInfo,
) -> bool {
    stake > 0 && (include_self || pubkey != cluster_info.id)
}

/// The node of one pair of identity and stake, where it is eligible and its socket is known.
pub open spec fn node_of(
    staked: (Pubkey, u64),
    include_self: bool,
    cluster_info: ClusterInfo,
) -> Option<Node> {
    match cluster_info.alpenglow_socket(staked.0) {
        Some(alpenglow_socket) => if is_eligible(staked.0, staked.1, include_self, cluster_info) {
            Some(Node { pubkey: staked.0, stake: staked.1, alpenglow_socket })
        } else {
            None
        },
        None => None,
    }
}

/// The nodes of all pairs of identity and stake that have one, in the order of the pairs.
pub open spec fn reachable(
    staked_nodes: Seq<(Pubkey, u64)>,
    include_self: bool,
    cluster_info: ClusterInfo,
) -> Seq<Node>
    decreases staked_nodes.len(),
{
    if staked_nodes.len() == 0 {
        Seq::empty()
    } else {
        let nodes = reachable(staked_nodes.drop_last(), include_self, cluster_info);
        match node_of(staked_nodes.last(), include_self, cluster_info) {
            Some(node) => nodes.push(node),
            None => nodes,
        }
    }
}

/// `nodes` without those whose socket is that of the node just before them.
pub open spec fn deduplicated(nodes: Seq<Node>) -> Seq<Node>
    decreases nodes.len(),
{
    if nodes.len() == 0 {
        Seq::empty()
    } else {
        let kept = deduplicated(nodes.drop_last());
        if nodes.len() >= 2 && nodes[nodes.len() - 2].alpenglow_socket
            == nodes.last().alpenglow_socket {
            kept
        } else {
            kept.push(nodes.last())
        }
    }
}

/// Whether the stakes of `nodes` ascend.
pub open spec fn is_sorted_by_stake(nodes: Seq<Node>) -> bool {
    forall|i: int, j: int|
        0 <= i <= j < nodes.len() ==> (#[trigger] nodes[i]).stake <= (#[trigger] nodes[j]).stake
}

/// Whether `order` holds the nodes of `nodes`, each as often, with ascending stakes. Nodes of equal
/// stake may stand in any order.
pub open spec fn is_stake_order(order: Seq<Node>, nodes: Seq<Node>) -> bool {
    &&& order.to_multiset() == nodes.to_multiset()
    &&& is_sorted_by_stake(order)
}

/// The socket to use for `node`: the one from the port override, where it has one for the node,
/// else the one from gossip.
pub open spec fn resolved_socket(
    node: Node,
    port_override: Option<&AlpenglowPortOverride>,
) -> SocketAddr {
    match port_override {
        Some(port_override) => match value_of(port_override.overrides(), node.pubkey) {
            Some(socket) => socket,
            None => node.alpenglow_socket,
        },
        None => node.alpenglow_socket,
    }
}

/// The sockets to use for `nodes`, one for each.
pub open spec fn resolved(
    nodes: Seq<Node>,
    port_override: Option<&AlpenglowPortOverride>,
) -> Seq<SocketAddr> {
    Seq::new(nodes.len(), |i: int| resolved_socket(nodes[i], port_override))
}

/// Whether `sockets` is a list of the sockets to send to, given the stakes of an epoch: one socket
/// for each eligible node that gossip knows a socket of, in the order of ascending stakes. Of
/// such nodes that follow one another in `staked_nodes` with the same socket only the first counts.
pub open spec fn is_socket_list(
    sockets: Seq<SocketAddr>,
    staked_nodes: Seq<(Pubkey, u64)>,
    include_self: bool,
    cluster_info: ClusterInfo,
    port_override: Option<&AlpenglowPortOverride>,
) -> bool {
    exists|order: Seq<Node>|
        {
            &&& #[trigger] is_stake_order(
                order,
                deduplicated(reachable(staked_nodes, include_self, cluster_info)),
            )
            &&& sockets == resolved(order, port_override)
        }
}

/// Collects the eligible nodes whose socket gossip knows.
pub fn reachable_nodes(
    staked_nodes: &Vec<(Pubkey, u64)>,
    include_self: bool,
    cluster_info: &ClusterInfo,
) -> (nodes: Vec<Node>)
    ensures
        nodes@ == reachable(staked_nodes@, include_self, *cluster_info),
{
    let mut nodes: Vec<Node> = Vec::new();
    let mut i: usize = 0;
    while i < staked_nodes.len()
        invariant
            i <= staked_nodes@.len(),
            nodes@ == reachable(staked_nodes@.take(i as int), include_self, *cluster_info),
        decreases staked_nodes@.len() - i,
    {
        let (pubkey, stake) = staked_nodes[i];
        assert(staked_nodes@.take(i + 1).drop_last() =~= staked_nodes@.take(i as int));
        let positive_stake = stake > 0;
        let not_self = pubkey != cluster_info.id;
        if positive_stake && (include_self || not_self) {
            if let Some(contact_info) = cluster_info.lookup_contact_info(&pubkey) {
                if let Some(alpenglow_socket) = contact_info.alpenglow {
                    nodes.push(Node { pubkey, stake, alpenglow_socket });
                }
            }
        }
        i += 1;
    }
    assert(staked_nodes@.take(i as int) =~= staked_nodes@);
    nodes
}

/// Drops each node whose socket is that of the node just before it.
pub fn dedup_by_socket(nodes: &Vec<Node>) -> (kept: Vec<Node>)
    ensures
        kept@ == deduplicated(nodes@),
{
    let mut kept: Vec<Node> = Vec::new();
    let mut i: usize = 0;
    while i < nodes.len()
        invariant
            i <= nodes@.len(),
            kept@ == deduplicated(nodes@.take(i as int)),
        decreases nodes@.len() - i,
    {
        assert(nodes@.take(i + 1).drop_last() =~= nodes@.take(i as int));
        if i == 0 || nodes[i - 1].alpenglow_socket != nodes[i].alpenglow_socket {
            kept.push(nodes[i]);
        }
        i += 1;
    }
    assert(nodes@.take(i as int) =~= nodes@);
    kept
}

/// `slice::sort_unstable_by_key` of std, with the stake as the key. Trusted: that it permutes the
/// nodes and leaves their stakes ascending. Where nodes of equal stake end up is not said.
#[verifier::external_body]
fn sort_by_stake(nodes: &mut Vec<Node>)
    ensures
        is_stake_order(final(nodes)@, old(nodes)@),
{
    nodes.sort_unstable_by_key(|node| node.stake);
}

/// Picks the socket to use for each node.
pub fn resolve_sockets(
    nodes: &Vec<Node>,
    port_override: Option<&AlpenglowPortOverride>,
) -> (sockets: Vec<SocketAddr>)
    ensures
        sockets@ == resolved(nodes@, port_override),
{
    let mut sockets: Vec<SocketAddr> = Vec::new();
    let mut i: usize = 0;
    while i < nodes.len()
        invariant
            i <= nodes@.len(),
            sockets@ == resolved(nodes@.take(i as int), port_override),
        decreases nodes@.len() - i,
    {
        let node = nodes[i];
        let socket = match port_override {
            Some(port_override) => {
                // If we have an override, use it.
                match find_value(port_override.get_override_map(), &node.pubkey) {
                    Some(socket) => socket,
                    None => node.alpenglow_socket,
                }
            },
            None => node.alpenglow_socket,
        };
        sockets.push(socket);
        assert(resolved(nodes@.take(i + 1), port_override) =~= resolved(
            nodes@.take(i as int),
            port_override,
        ).push(resolved_socket(node, port_override)));
        i += 1;
    }
    assert(nodes@.take(i as int) =~= nodes@);
    sockets
}

/// Works out the sockets to send to from the stakes of an epoch.
pub fn sockets_of(
    staked_nodes: &Vec<(Pubkey, u64)>,
    include_self: bool,
    cluster_info: &ClusterInfo,
    port_override: Option<&AlpenglowPortOverride>,
) -> (sockets: Vec<SocketAddr>)
    ensures
        is_socket_list(sockets@, staked_nodes@, include_self, *cluster_info, port_override),
{
    let found = reachable_nodes(staked_nodes, include_self, cluster_info);
    let mut nodes = dedup_by_socket(&found);
    sort_by_stake(&mut nodes);
    resolve_sockets(&nodes, port_override)
}

/// Every reachable node is that of a pair of identity and stake.
pub proof fn lemma_reachable_comes_from(
    staked_nodes: Seq<(Pubkey, u64)>,
    include_self: bool,
    cluster_info: ClusterInfo,
    i: int,
)
    requires
        0 <= i < reachable(staked_nodes, include_self, cluster_info).len(),
    ensures
        exists|k: int|
            0 <= k < staked_nodes.len() && node_of(
                #[trigger] staked_nodes[k],
                include_self,
                cluster_info,
            ) == Some(reachable(staked_nodes, include_self, cluster_info)[i]),
    decreases staked_nodes.len(),
{
    let rest = staked_nodes.drop_last();
    let nodes = reachable(rest, include_self, cluster_info);
    if i < nodes.len() {
        lemma_reachable_comes_from(rest, include_self, cluster_info, i);
        let k = choose|k: int|
            0 <= k < rest.len() && node_of(#[trigger] rest[k], include_self, cluster_info) == Some(
                nodes[i],
            );
        assert(staked_nodes[k] == rest[k]);
    } else {
        assert(staked_nodes[staked_nodes.len() - 1] == staked_nodes.last());
    }
}

/// The node of a pair of identity and stake, where it has one, is reachable.
pub proof fn lemma_reachable_contains(
    staked_nodes: Seq<(Pubkey, u64)>,
    include_self: bool,
    cluster_info: ClusterInfo,
    k: int,
)
    requires
        0 <= k < staked_nodes.len(),
        node_of(staked_nodes[k], include_self, cluster_info) is Some,
    ensures
        reachable(staked_nodes, include_self, cluster_info).contains(
            node_of(staked_nodes[k], include_self, cluster_info)->0,
        ),
    decreases staked_nodes.len(),
{
    let rest = staked_nodes.drop_last();
    let before = reachable(rest, include_self, cluster_info);
    let nodes = reachable(staked_nodes, include_self, cluster_info);
    let node = node_of(staked_nodes[k], include_self, cluster_info)->0;
    if k < rest.len() {
        assert(rest[k] == staked_nodes[k]);
        lemma_reachable_contains(rest, include_self, cluster_info, k);
        let i = choose|i: int| 0 <= i < before.len() && before[i] == node;
        assert(nodes[i] == node);
    } else {
        assert(nodes[nodes.len() - 1] == node);
    }
}

/// Deduplication adds no node and loses no socket.
pub proof fn lemma_deduplicated(nodes: Seq<Node>)
    ensures
        forall|i: int|
            0 <= i < deduplicated(nodes).len() ==> nodes.contains(#[trigger] deduplicated(nodes)[i]),
        forall|j: int|
            0 <= j < nodes.len() ==> exists|i: int|
                0 <= i < deduplicated(nodes).len() && (#[trigger] deduplicated(
                    nodes,
                )[i]).alpenglow_socket == (#[trigger] nodes[j]).alpenglow_socket,
    decreases nodes.len(),
{
    if nodes.len() > 0 {
        let rest = nodes.drop_last();
        lemma_deduplicated(rest);
        let before = deduplicated(rest);
        let kept = deduplicated(nodes);
        assert forall|i: int| 0 <= i < kept.len() implies nodes.contains(#[trigger] kept[i]) by {
            if i < before.len() {
                assert(kept[i] == before[i]);
                assert(rest.contains(before[i]));
                let j = choose|j: int| 0 <= j < rest.len() && rest[j] == before[i];
                assert(nodes[j] == kept[i]);
            } else {
                assert(nodes[nodes.len() - 1] == kept[i]);
            }
        }
        assert forall|j: int| 0 <= j < nodes.len() implies exists|i: int|
            0 <= i < kept.len() && (#[trigger] kept[i]).alpenglow_socket == (
            #[trigger] nodes[j]).alpenglow_socket by {
            if j < rest.len() || kept.len() == before.len() {
                let same = if j < rest.len() {
                    j
                } else {
                    j - 1
                };
                assert(rest[same].alpenglow_socket == nodes[j].alpenglow_socket);
                let i = choose|i: int|
                    0 <= i < before.len() && (#[trigger] before[i]).alpenglow_socket
                        == rest[same].alpenglow_socket;
                assert(kept[i] == before[i]);
            } else {
                assert(kept[kept.len() - 1].alpenglow_socket == nodes[j].alpenglow_socket);
            }
        }
    }
}

/// Whether no two of `nodes` have the same socket.
pub open spec fn has_distinct_sockets(nodes: Seq<Node>) -> bool {
    forall|i: int, j: int|
        0 <= i < j < nodes.len() ==> (#[trigger] nodes[i]).alpenglow_socket != (
        #[trigger] nodes[j]).alpenglow_socket
}

/// Nodes with distinct sockets are all kept.
pub proof fn lemma_deduplicated_distinct(nodes: Seq<Node>)
    requires
        has_distinct_sockets(nodes),
    ensures
        deduplicated(nodes) == nodes,
    decreases nodes.len(),
{
    if nodes.len() > 0 {
        let rest = nodes.drop_last();
        assert forall|i: int, j: int| 0 <= i < j < rest.len() implies (
        #[trigger] rest[i]).alpenglow_socket != (#[trigger] rest[j]).alpenglow_socket by {
            assert(rest[i] == nodes[i] && rest[j] == nodes[j]);
        }
        lemma_deduplicated_distinct(rest);
        if nodes.len() >= 2 {
            assert(nodes[nodes.len() - 2].alpenglow_socket != nodes[nodes.len() - 1].alpenglow_socket);
        }
        assert(deduplicated(nodes) =~= nodes);
    }
}

/// Whether no two of `nodes` have the same stake.
pub open spec fn has_distinct_stakes(nodes: Seq<Node>) -> bool {
    forall|i: int, j: int|
        0 <= i < j < nodes.len() ==> (#[trigger] nodes[i]).stake != (#[trigger] nodes[j]).stake
}

/// Nodes with distinct stakes have one order of ascending stakes only.
pub proof fn lemma_stake_order_is_unique(first: Seq<Node>, second: Seq<Node>, nodes: Seq<Node>)
    requires
        is_stake_order(first, nodes),
        is_stake_order(second, nodes),
        has_distinct_stakes(nodes),
    ensures
        first == second,
    decreases nodes.len(),
{
    broadcast use vstd::seq_lib::group_to_multiset_ensures;

    assert(first.len() == nodes.to_multiset().len() && second.len() == nodes.to_multiset().len());
    if nodes.len() == 0 {
        assert(first =~= second);
    } else {
        let a = first.last();
        let b = second.last();
        assert(first.contains(first[first.len() - 1]) && second.contains(
            second[second.len() - 1],
        ));
        assert(nodes.to_multiset().count(a) > 0 && nodes.to_multiset().count(b) > 0);
        assert(nodes.contains(a) && nodes.contains(b));
        let i = choose|i: int| 0 <= i < nodes.len() && nodes[i] == a;
        let j = choose|j: int| 0 <= j < nodes.len() && nodes[j] == b;
        assert(first.contains(b) && second.contains(a));
        let p = choose|p: int| 0 <= p < first.len() && first[p] == b;
        let q = choose|q: int| 0 <= q < second.len() && second[q] == a;
        assert(first[p].stake <= first[first.len() - 1].stake);
        assert(second[q].stake <= second[second.len() - 1].stake);
        if i != j {
            assert(nodes[i].stake != nodes[j].stake);
        }
        assert(a == b);
        let rest = nodes.remove(i);
        assert(first.drop_last() =~= first.remove(first.len() - 1));
        assert(second.drop_last() =~= second.remove(second.len() - 1));
        assert(first.remove(first.len() - 1).to_multiset() == nodes.to_multiset().remove(a));
        assert(second.remove(second.len() - 1).to_multiset() == nodes.to_multiset().remove(a));
        assert(rest.to_multiset() == nodes.to_multiset().remove(a));
        assert forall|x: int, y: int| 0 <= x < y < rest.len() implies (#[trigger] rest[x]).stake != (
        #[trigger] rest[y]).stake by {
            let u = if x < i {
                x
            } else {
                x + 1
            };
            let v = if y < i {
                y
            } else {
                y + 1
            };
            assert(rest[x] == nodes[u] && rest[y] == nodes[v]);
        }
        lemma_sorted_drop_last(first);
        lemma_sorted_drop_last(second);
        lemma_stake_order_is_unique(first.drop_last(), second.drop_last(), rest);
        assert(first =~= first.drop_last().push(a));
        assert(second =~= second.drop_last().push(b));
    }
}

proof fn lemma_sorted_drop_last(nodes: Seq<Node>)
    requires
        nodes.len() > 0,
        is_sorted_by_stake(nodes),
    ensures
        is_sorted_by_stake(nodes.drop_last()),
{
    let rest = nodes.drop_last();
    assert forall|i: int, j: int| 0 <= i <= j < rest.len() implies (#[trigger] rest[i]).stake <= (
    #[trigger] rest[j]).stake by {
        assert(rest[i] == nodes[i] && rest[j] == nodes[j]);
    }
}

/// Which nodes are reachable, and how often each, does not depend on where a pair of identity and
/// stake stands.
proof fn lemma_reachable_remove(
    staked_nodes: Seq<(Pubkey, u64)>,
    include_self: bool,
    cluster_info: ClusterInfo,
    k: int,
)
    requires
        0 <= k < staked_nodes.len(),
    ensures
        reachable(staked_nodes, include_self, cluster_info).to_multiset() == match node_of(
            staked_nodes[k],
            include_self,
            cluster_info,
        ) {
            Some(node) => reachable(
                staked_nodes.remove(k),
                include_self,
                cluster_info,
            ).to_multiset().insert(node),
            None => reachable(staked_nodes.remove(k), include_self, cluster_info).to_multiset(),
        },
    decreases staked_nodes.len(),
{
    broadcast use vstd::seq_lib::group_to_multiset_ensures;

    let rest = staked_nodes.drop_last();
    let removed = staked_nodes.remove(k);
    if k == staked_nodes.len() - 1 {
        assert(removed =~= rest);
    } else {
        assert(rest[k] == staked_nodes[k]);
        lemma_reachable_remove(rest, include_self, cluster_info, k);
        assert(removed.drop_last() =~= rest.remove(k));
        assert(removed.last() == staked_nodes.last());
        assert(reachable(staked_nodes, include_self, cluster_info).to_multiset() =~= match node_of(
            staked_nodes[k],
            include_self,
            cluster_info,
        ) {
            Some(node) => reachable(removed, include_self, cluster_info).to_multiset().insert(node),
            None => reachable(removed, include_self, cluster_info).to_multiset(),
        });
    }
}

/// Which nodes are reachable, and how often each, does not depend on the order in which the pairs
/// of identity and stake stand.
pub proof fn lemma_reachable_permuted(
    first: Seq<(Pubkey, u64)>,
    second: Seq<(Pubkey, u64)>,
    include_self: bool,
    cluster_info: ClusterInfo,
)
    requires
        first.to_multiset() == second.to_multiset(),
    ensures
        reachable(first, include_self, cluster_info).to_multiset() == reachable(
            second,
            include_self,
            cluster_info,
        ).to_multiset(),
    decreases first.len(),
{
    broadcast use vstd::seq_lib::group_to_multiset_ensures;

    assert(first.len() == second.to_multiset().len());
    if first.len() == 0 {
        assert(first =~= second);
    } else {
        let last = first.len() - 1;
        assert(first.contains(first[last]));
        assert(first.to_multiset().count(first[last]) > 0);
        assert(second.contains(first[last]));
        let k = choose|k: int| 0 <= k < second.len() && second[k] == first[last];
        assert(first.remove(last).to_multiset() == second.remove(k).to_multiset());
        lemma_reachable_permuted(first.remove(last), second.remove(k), include_self, cluster_info);
        lemma_reachable_remove(first, include_self, cluster_info, last);
        lemma_reachable_remove(second, include_self, cluster_info, k);
    }
}

/// Of as many of the same nodes, none share a socket where none did.
pub proof fn lemma_distinct_sockets_permuted(first: Seq<Node>, second: Seq<Node>)
    requires
        first.to_multiset() == second.to_multiset(),
        has_distinct_sockets(first),
    ensures
        has_distinct_sockets(second),
{
    broadcast use vstd::seq_lib::group_to_multiset_ensures;

    assert(first.no_duplicates()) by {
        assert forall|i: int, j: int|
            0 <= i < first.len() && 0 <= j < first.len() && i != j implies first[i] != first[j] by {
            if i < j {
                assert(first[i].alpenglow_socket != first[j].alpenglow_socket);
            } else {
                assert(first[j].alpenglow_socket != first[i].alpenglow_socket);
            }
        }
    }
    first.lemma_multiset_has_no_duplicates();
    second.lemma_multiset_has_no_duplicates_conv();
    assert forall|i: int, j: int| 0 <= i < j < second.len() implies (
    #[trigger] second[i]).alpenglow_socket != (#[trigger] second[j]).alpenglow_socket by {
        assert(second.contains(second[i]) && second.contains(second[j]));
        assert(second.to_multiset().count(second[i]) > 0);
        assert(second.to_multiset().count(second[j]) > 0);
        assert(first.contains(second[i]) && first.contains(second[j]));
        let a = choose|a: int| 0 <= a < first.len() && first[a] == second[i];
        let b = choose|b: int| 0 <= b < first.len() && first[b] == second[j];
        assert(second[i] != second[j]);
        assert(a != b);
        if a < b {
            assert(first[a].alpenglow_socket != first[b].alpenglow_socket);
        } else {
            assert(first[b].alpenglow_socket != first[a].alpenglow_socket);
        }
    }
}

} // verus!
