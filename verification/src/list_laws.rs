//! What a list of sockets is, said of the pairs of identity and stake, of the gossip table and of
//! the table of overrides themselves.
//!
//! Gossip names the socket `s` for the validator `p` where its table holds the pair of `p` and a
//! contact info with `s`; the port override names it where its own table holds the pair of `p` and
//! `s`. A pair of identity and stake is on call where the stake is above zero, the identity is not
//! that of the running validator or that one counts too, and gossip names a socket for it.

use vstd::prelude::*;

use crate::gossip::{ClusterInfo, ContactInfo};
use crate::laws::law_a_table_is_a_map;
use crate::net::{lemma_value_of_absent, Pubkey, SocketAddr};
use crate::nodes::{
    deduplicated, is_socket_list, is_stake_order, node_of, reachable, resolved, resolved_socket,
    Node,
};
use crate::port_override::AlpenglowPortOverride;

verus! {

/// Whether no key stands twice in `table`.
pub open spec fn no_key_twice<V>(table: Seq<(Pubkey, V)>) -> bool {
    forall|i: int, j: int|
        0 <= i < j < table.len() ==> (#[trigger] table[i]).0 != (#[trigger] table[j]).0
}

/// Two keys are the same exactly where all their bytes are.
pub proof fn law_keys_are_their_bytes(first: Pubkey, second: Pubkey)
    ensures
        first == second <==> (forall|i: int|
            0 <= i < 32 ==> #[trigger] first.bytes[i] == second.bytes[i]),
        vstd::std_specs::cmp::PartialEqSpec::eq_spec(&first, &second) <==> (forall|i: int|
            0 <= i < 32 ==> #[trigger] first.bytes[i] == second.bytes[i]),
{
    broadcast use vstd::array::group_array_axioms;

    if forall|i: int| 0 <= i < 32 ==> #[trigger] first.bytes[i] == second.bytes[i] {
        assert(first.bytes =~= second.bytes);
    }
}

/// The gossip table is read as a map.
pub proof fn law_gossip_is_a_map(cluster_info: ClusterInfo, pubkey: Pubkey, socket: SocketAddr)
    requires
        no_key_twice(cluster_info.contact_infos@),
    ensures
        cluster_info.alpenglow_socket(pubkey) == Some(socket)
            <==> cluster_info.contact_infos@.contains(
            (pubkey, ContactInfo { alpenglow: Some(socket) }),
        ),
{
    law_a_table_is_a_map(
        cluster_info.contact_infos@,
        pubkey,
        ContactInfo { alpenglow: Some(socket) },
    );
}

/// The socket picked for a node is the one that the port override names for its identity, equal in
/// all fields, and where it names none the one that the node has from gossip.
pub proof fn law_override_is_taken_whole(node: Node, port_override: Option<&AlpenglowPortOverride>)
    ensures
        port_override is None ==> resolved_socket(node, port_override) == node.alpenglow_socket,
        port_override is Some && (forall|n: int|
            0 <= n < port_override->0.overrides().len() ==> (
            #[trigger] port_override->0.overrides()[n]).0 != node.pubkey) ==> resolved_socket(
            node,
            port_override,
        ) == node.alpenglow_socket,
        forall|n: int|
            port_override is Some && no_key_twice(port_override->0.overrides()) && 0 <= n
                < port_override->0.overrides().len() && (
            #[trigger] port_override->0.overrides()[n]).0 == node.pubkey ==> resolved_socket(
                node,
                port_override,
            ) == port_override->0.overrides()[n].1,
{
    if port_override is Some {
        let table = port_override->0.overrides();
        if forall|n: int| 0 <= n < table.len() ==> (#[trigger] table[n]).0 != node.pubkey {
            lemma_value_of_absent(table, node.pubkey);
        }
        assert forall|n: int|
            no_key_twice(table) && 0 <= n < table.len() && (#[trigger] table[n]).0
                == node.pubkey implies resolved_socket(node, port_override) == table[n].1 by {
            assert(table[n] == (node.pubkey, table[n].1));
            law_a_table_is_a_map(table, node.pubkey, table[n].1);
        }
    }
}

/// One socket is picked for each node, at the same place: the one that the port override names,
/// else the one from gossip.
pub proof fn law_one_socket_at_each_place(
    nodes: Seq<Node>,
    port_override: Option<&AlpenglowPortOverride>,
    i: int,
)
    requires
        0 <= i < nodes.len(),
        port_override is Some ==> no_key_twice(port_override->0.overrides()),
    ensures
        resolved(nodes, port_override).len() == nodes.len(),
        port_override is None ==> resolved(nodes, port_override)[i] == nodes[i].alpenglow_socket,
        port_override is Some ==> {
            ||| port_override->0.overrides().contains(
                (nodes[i].pubkey, resolved(nodes, port_override)[i]),
            )
            ||| resolved(nodes, port_override)[i] == nodes[i].alpenglow_socket && (forall|n: int|
                0 <= n < port_override->0.overrides().len() ==> (
                #[trigger] port_override->0.overrides()[n]).0 != nodes[i].pubkey)
        },
{
    law_override_is_taken_whole(nodes[i], port_override);
    if port_override is Some {
        let table = port_override->0.overrides();
        if exists|n: int| 0 <= n < table.len() && (#[trigger] table[n]).0 == nodes[i].pubkey {
            let n = choose|n: int|
                0 <= n < table.len() && (#[trigger] table[n]).0 == nodes[i].pubkey;
            assert(table[n] == (nodes[i].pubkey, resolved(nodes, port_override)[i]));
        }
    }
}

/// The places of the pairs of identity and stake that have a node.
spec fn places(
    staked_nodes: Seq<(Pubkey, u64)>,
    include_self: bool,
    cluster_info: ClusterInfo,
) -> Seq<int>
    decreases staked_nodes.len(),
{
    if staked_nodes.len() == 0 {
        Seq::empty()
    } else {
        let earlier = places(staked_nodes.drop_last(), include_self, cluster_info);
        if node_of(staked_nodes.last(), include_self, cluster_info) is Some {
            earlier.push(staked_nodes.len() - 1)
        } else {
            earlier
        }
    }
}

proof fn lemma_places(
    staked_nodes: Seq<(Pubkey, u64)>,
    include_self: bool,
    cluster_info: ClusterInfo,
)
    ensures
        ({
            let at = places(staked_nodes, include_self, cluster_info);
            let nodes = reachable(staked_nodes, include_self, cluster_info);
            &&& at.len() == nodes.len()
            &&& forall|a: int, b: int| 0 <= a < b < at.len() ==> #[trigger] at[a] < #[trigger] at[b]
            &&& forall|a: int|
                0 <= a < at.len() ==> 0 <= #[trigger] at[a] < staked_nodes.len() && node_of(
                    staked_nodes[at[a]],
                    include_self,
                    cluster_info,
                ) == Some(nodes[a])
            &&& forall|k: int|
                0 <= k < staked_nodes.len() && node_of(
                    #[trigger] staked_nodes[k],
                    include_self,
                    cluster_info,
                ) is Some ==> at.contains(k)
        }),
    decreases staked_nodes.len(),
{
    if staked_nodes.len() > 0 {
        let rest = staked_nodes.drop_last();
        lemma_places(rest, include_self, cluster_info);
        let earlier = places(rest, include_self, cluster_info);
        let at = places(staked_nodes, include_self, cluster_info);
        let nodes = reachable(staked_nodes, include_self, cluster_info);
        let last = staked_nodes.len() - 1;
        assert forall|a: int| 0 <= a < at.len() implies 0 <= #[trigger] at[a] < staked_nodes.len()
            && node_of(staked_nodes[at[a]], include_self, cluster_info) == Some(nodes[a]) by {
            if a < earlier.len() {
                assert(at[a] == earlier[a]);
                assert(staked_nodes[at[a]] == rest[earlier[a]]);
            }
        }
        assert forall|a: int, b: int| 0 <= a < b < at.len() implies #[trigger] at[a]
            < #[trigger] at[b] by {
            assert(at[a] == earlier[a]);
            if b < earlier.len() {
                assert(at[b] == earlier[b]);
            }
        }
        assert forall|k: int|
            0 <= k < staked_nodes.len() && node_of(
                #[trigger] staked_nodes[k],
                include_self,
                cluster_info,
            ) is Some implies at.contains(k) by {
            if k < last {
                assert(rest[k] == staked_nodes[k]);
                assert(earlier.contains(k));
                let a = choose|a: int| 0 <= a < earlier.len() && earlier[a] == k;
                assert(at[a] == k);
            } else {
                assert(at[at.len() - 1] == k);
            }
        }
    }
}

/// The reachable nodes are those of the pairs that are on call, each with the identity and the
/// stake of its pair and with the socket that gossip names, in the order of the pairs.
pub proof fn law_reachable_nodes_in_full(
    staked_nodes: Seq<(Pubkey, u64)>,
    include_self: bool,
    cluster_info: ClusterInfo,
)
    requires
        no_key_twice(cluster_info.contact_infos@),
    ensures
        exists|at: Seq<int>|
            {
                &&& #[trigger] at.len() == reachable(staked_nodes, include_self, cluster_info).len()
                &&& forall|a: int, b: int|
                    0 <= a < b < at.len() ==> #[trigger] at[a] < #[trigger] at[b]
                &&& forall|a: int|
                    0 <= a < at.len() ==> {
                        &&& 0 <= #[trigger] at[a] < staked_nodes.len()
                        &&& staked_nodes[at[a]].1 > 0
                        &&& include_self || staked_nodes[at[a]].0 != cluster_info.id
                        &&& reachable(staked_nodes, include_self, cluster_info)[a].pubkey
                            == staked_nodes[at[a]].0
                        &&& reachable(staked_nodes, include_self, cluster_info)[a].stake
                            == staked_nodes[at[a]].1
                        &&& cluster_info.contact_infos@.contains(
                            (
                                staked_nodes[at[a]].0,
                                ContactInfo {
                                    alpenglow: Some(
                                        reachable(
                                            staked_nodes,
                                            include_self,
                                            cluster_info,
                                        )[a].alpenglow_socket,
                                    ),
                                },
                            ),
                        )
                    }
                &&& forall|k: int, socket: SocketAddr|
                    0 <= k < staked_nodes.len() && (#[trigger] staked_nodes[k]).1 > 0 && (
                    include_self || staked_nodes[k].0 != cluster_info.id)
                        && #[trigger] cluster_info.contact_infos@.contains(
                        (staked_nodes[k].0, ContactInfo { alpenglow: Some(socket) }),
                    ) ==> at.contains(k)
            },
{
    let at = places(staked_nodes, include_self, cluster_info);
    let nodes = reachable(staked_nodes, include_self, cluster_info);
    lemma_places(staked_nodes, include_self, cluster_info);
    assert forall|a: int| 0 <= a < at.len() implies {
        &&& 0 <= #[trigger] at[a] < staked_nodes.len()
        &&& staked_nodes[at[a]].1 > 0
        &&& include_self || staked_nodes[at[a]].0 != cluster_info.id
        &&& nodes[a].pubkey == staked_nodes[at[a]].0
        &&& nodes[a].stake == staked_nodes[at[a]].1
        &&& cluster_info.contact_infos@.contains(
            (
                staked_nodes[at[a]].0,
                ContactInfo { alpenglow: Some(nodes[a].alpenglow_socket) },
            ),
        )
    } by {
        law_gossip_is_a_map(cluster_info, staked_nodes[at[a]].0, nodes[a].alpenglow_socket);
    }
    assert forall|k: int, socket: SocketAddr|
        0 <= k < staked_nodes.len() && (#[trigger] staked_nodes[k]).1 > 0 && (include_self
            || staked_nodes[k].0 != cluster_info.id)
            && #[trigger] cluster_info.contact_infos@.contains(
            (staked_nodes[k].0, ContactInfo { alpenglow: Some(socket) }),
        ) implies at.contains(k) by {
        law_gossip_is_a_map(cluster_info, staked_nodes[k].0, socket);
        assert(node_of(staked_nodes[k], include_self, cluster_info) is Some);
    }
    assert(at.len() == nodes.len());
}

/// The places of the nodes that deduplication keeps.
spec fn kept_places(nodes: Seq<Node>) -> Seq<int>
    decreases nodes.len(),
{
    if nodes.len() == 0 {
        Seq::empty()
    } else {
        let earlier = kept_places(nodes.drop_last());
        if nodes.len() >= 2 && nodes[nodes.len() - 2].alpenglow_socket
            == nodes.last().alpenglow_socket {
            earlier
        } else {
            earlier.push(nodes.len() - 1)
        }
    }
}

proof fn lemma_kept_places(nodes: Seq<Node>)
    ensures
        ({
            let at = kept_places(nodes);
            &&& at.len() == deduplicated(nodes).len()
            &&& forall|a: int, b: int| 0 <= a < b < at.len() ==> #[trigger] at[a] < #[trigger] at[b]
            &&& forall|a: int|
                0 <= a < at.len() ==> {
                    &&& 0 <= #[trigger] at[a] < nodes.len()
                    &&& deduplicated(nodes)[a] == nodes[at[a]]
                }
            &&& forall|j: int| #[trigger]
                at.contains(j) <==> 0 <= j < nodes.len() && (j == 0
                    || nodes[j - 1].alpenglow_socket != nodes[j].alpenglow_socket)
        }),
    decreases nodes.len(),
{
    if nodes.len() > 0 {
        let rest = nodes.drop_last();
        lemma_kept_places(rest);
        let earlier = kept_places(rest);
        let at = kept_places(nodes);
        let last = nodes.len() - 1;
        assert forall|a: int| 0 <= a < at.len() implies {
            &&& 0 <= #[trigger] at[a] < nodes.len()
            &&& deduplicated(nodes)[a] == nodes[at[a]]
        } by {
            if a < earlier.len() {
                assert(at[a] == earlier[a]);
                assert(nodes[at[a]] == rest[earlier[a]]);
            }
        }
        assert forall|a: int, b: int| 0 <= a < b < at.len() implies #[trigger] at[a]
            < #[trigger] at[b] by {
            assert(at[a] == earlier[a]);
            if b < earlier.len() {
                assert(at[b] == earlier[b]);
            }
        }
        assert forall|j: int| #[trigger]
            at.contains(j) <==> 0 <= j < nodes.len() && (j == 0
                || nodes[j - 1].alpenglow_socket != nodes[j].alpenglow_socket) by {
            if j < last {
                assert(0 <= j ==> rest[j] == nodes[j]);
                assert(0 < j ==> rest[j - 1] == nodes[j - 1]);
                if earlier.contains(j) {
                    let a = choose|a: int| 0 <= a < earlier.len() && earlier[a] == j;
                    assert(at[a] == j);
                }
                if at.contains(j) {
                    let a = choose|a: int| 0 <= a < at.len() && at[a] == j;
                    assert(earlier[a] == j);
                }
            } else if at.contains(j) {
                let a = choose|a: int| 0 <= a < at.len() && at[a] == j;
                if a < earlier.len() {
                    assert(at[a] == earlier[a]);
                }
            } else if at.len() > earlier.len() {
                assert(at[at.len() - 1] == last);
            }
        }
    }
}

/// Deduplication keeps, in their order, exactly the first node and each whose socket differs from
/// that of the node just before it.
pub proof fn law_deduplication_in_full(nodes: Seq<Node>)
    ensures
        exists|at: Seq<int>|
            {
                &&& #[trigger] at.len() == deduplicated(nodes).len()
                &&& forall|a: int, b: int|
                    0 <= a < b < at.len() ==> #[trigger] at[a] < #[trigger] at[b]
                &&& forall|a: int|
                    0 <= a < at.len() ==> {
                        &&& 0 <= #[trigger] at[a] < nodes.len()
                        &&& deduplicated(nodes)[a] == nodes[at[a]]
                    }
                &&& forall|j: int| #[trigger]
                    at.contains(j) <==> 0 <= j < nodes.len() && (j == 0
                        || nodes[j - 1].alpenglow_socket != nodes[j].alpenglow_socket)
            },
{
    lemma_kept_places(nodes);
    assert(kept_places(nodes).len() == deduplicated(nodes).len());
}

/// Of as many of the same nodes, each stands at some place of the others.
proof fn lemma_permutation(order: Seq<Node>, nodes: Seq<Node>) -> (at: Seq<int>)
    requires
        order.to_multiset() == nodes.to_multiset(),
    ensures
        at.len() == order.len(),
        order.len() == nodes.len(),
        at.no_duplicates(),
        forall|i: int|
            0 <= i < at.len() ==> 0 <= #[trigger] at[i] < nodes.len() && order[i] == nodes[at[i]],
        forall|j: int| 0 <= j < nodes.len() ==> #[trigger] at.contains(j),
    decreases order.len(),
{
    broadcast use vstd::seq_lib::group_to_multiset_ensures;

    assert(order.len() == nodes.to_multiset().len());
    if order.len() == 0 {
        Seq::empty()
    } else {
        let last = order.len() - 1;
        assert(order.contains(order[last]));
        assert(order.to_multiset().count(order[last]) > 0);
        assert(nodes.contains(order[last]));
        let k = choose|k: int| 0 <= k < nodes.len() && nodes[k] == order[last];
        assert(order.remove(last).to_multiset() == nodes.remove(k).to_multiset());
        let before = lemma_permutation(order.remove(last), nodes.remove(k));
        let at = Seq::new(
            order.len(),
            |i: int|
                if i == last {
                    k
                } else if before[i] < k {
                    before[i]
                } else {
                    before[i] + 1
                },
        );
        assert forall|i: int| 0 <= i < at.len() implies 0 <= #[trigger] at[i] < nodes.len()
            && order[i] == nodes[at[i]] by {
            if i < last {
                assert(order.remove(last)[i] == nodes.remove(k)[before[i]]);
            }
        }
        assert forall|i: int, j: int|
            0 <= i < at.len() && 0 <= j < at.len() && i != j implies at[i] != at[j] by {
            if i < last && j < last {
                assert(before[i] != before[j]);
            }
        }
        assert forall|j: int| 0 <= j < nodes.len() implies #[trigger] at.contains(j) by {
            if j == k {
                assert(at[last] == j);
            } else {
                let inner = if j < k {
                    j
                } else {
                    j - 1
                };
                assert(before.contains(inner));
                let i = choose|i: int| 0 <= i < before.len() && before[i] == inner;
                assert(at[i] == j);
            }
        }
        at
    }
}

/// A list of sockets in full.
///
/// Let `known` be the places of all pairs that are on call, in their order. The list holds one
/// socket for each pair in `pick`, at its place in `pick`; the stakes of the pairs ascend along
/// `pick`. Picked, once each, are the first of the known pairs and every other one that does not
/// share its socket from gossip with the known pair just before it. The socket in the list is the
/// one that the port override names for the pair's identity, and where it names none the one that
/// gossip names.
pub proof fn law_list_in_full(
    sockets: Seq<SocketAddr>,
    staked_nodes: Seq<(Pubkey, u64)>,
    include_self: bool,
    cluster_info: ClusterInfo,
    port_override: Option<&AlpenglowPortOverride>,
) -> (picks: (Seq<int>, Seq<int>))
    requires
        is_socket_list(sockets, staked_nodes, include_self, cluster_info, port_override),
        no_key_twice(cluster_info.contact_infos@),
        port_override is Some ==> no_key_twice(port_override->0.overrides()),
    ensures
        ({
            let (known, pick) = picks;
            let gossip = cluster_info.contact_infos@;
            &&& forall|a: int, b: int|
                0 <= a < b < known.len() ==> #[trigger] known[a] < #[trigger] known[b]
            &&& forall|a: int|
                0 <= a < known.len() ==> {
                    &&& 0 <= #[trigger] known[a] < staked_nodes.len()
                    &&& staked_nodes[known[a]].1 > 0
                    &&& include_self || staked_nodes[known[a]].0 != cluster_info.id
                    &&& exists|socket: SocketAddr| #[trigger]
                        gossip.contains(
                            (staked_nodes[known[a]].0, ContactInfo { alpenglow: Some(socket) }),
                        )
                }
            &&& forall|k: int, socket: SocketAddr|
                0 <= k < staked_nodes.len() && (#[trigger] staked_nodes[k]).1 > 0 && (include_self
                    || staked_nodes[k].0 != cluster_info.id) && #[trigger] gossip.contains(
                    (staked_nodes[k].0, ContactInfo { alpenglow: Some(socket) }),
                ) ==> known.contains(k)
            &&& pick.len() == sockets.len()
            &&& pick.no_duplicates()
            &&& forall|i: int| 0 <= i < pick.len() ==> known.contains(#[trigger] pick[i])
            &&& forall|i: int, j: int|
                0 <= i <= j < pick.len() ==> staked_nodes[#[trigger] pick[i]].1
                    <= staked_nodes[#[trigger] pick[j]].1
            &&& known.len() > 0 ==> pick.contains(known[0])
            &&& forall|a: int|
                0 < a < known.len() ==> (#[trigger] pick.contains(known[a]) <==> !exists|
                    socket: SocketAddr,
                |
                    gossip.contains(
                        (staked_nodes[known[a]].0, ContactInfo { alpenglow: Some(socket) }),
                    ) && #[trigger] gossip.contains(
                        (staked_nodes[known[a - 1]].0, ContactInfo { alpenglow: Some(socket) }),
                    ))
            &&& forall|i: int|
                0 <= i < pick.len() ==> {
                    ||| port_override is Some && port_override->0.overrides().contains(
                        (staked_nodes[#[trigger] pick[i]].0, sockets[i]),
                    )
                    ||| gossip.contains(
                        (staked_nodes[pick[i]].0, ContactInfo { alpenglow: Some(sockets[i]) }),
                    ) && (port_override is Some ==> forall|n: int|
                        0 <= n < port_override->0.overrides().len() ==> (
                        #[trigger] port_override->0.overrides()[n]).0 != staked_nodes[pick[i]].0)
                }
        }),
{
    let gossip = cluster_info.contact_infos@;
    let nodes = reachable(staked_nodes, include_self, cluster_info);
    let kept = deduplicated(nodes);
    law_reachable_nodes_in_full(staked_nodes, include_self, cluster_info);
    let known = places(staked_nodes, include_self, cluster_info);
    lemma_places(staked_nodes, include_self, cluster_info);
    let first = kept_places(nodes);
    lemma_kept_places(nodes);
    let order = choose|order: Seq<Node>|
        #[trigger] is_stake_order(order, kept) && sockets == resolved(order, port_override);
    let at = lemma_permutation(order, kept);
    let pick = Seq::new(order.len(), |i: int| known[first[at[i]]]);
    assert forall|a: int| 0 <= a < known.len() implies {
        &&& 0 <= #[trigger] known[a] < staked_nodes.len()
        &&& staked_nodes[known[a]].1 > 0
        &&& include_self || staked_nodes[known[a]].0 != cluster_info.id
        &&& nodes[a].pubkey == staked_nodes[known[a]].0
        &&& nodes[a].stake == staked_nodes[known[a]].1
        &&& gossip.contains(
            (
                staked_nodes[known[a]].0,
                ContactInfo { alpenglow: Some(nodes[a].alpenglow_socket) },
            ),
        )
    } by {
        law_gossip_is_a_map(cluster_info, staked_nodes[known[a]].0, nodes[a].alpenglow_socket);
    }
    assert forall|k: int, socket: SocketAddr|
        0 <= k < staked_nodes.len() && (#[trigger] staked_nodes[k]).1 > 0 && (include_self
            || staked_nodes[k].0 != cluster_info.id) && #[trigger] gossip.contains(
            (staked_nodes[k].0, ContactInfo { alpenglow: Some(socket) }),
        ) implies known.contains(k) by {
        law_gossip_is_a_map(cluster_info, staked_nodes[k].0, socket);
        assert(node_of(staked_nodes[k], include_self, cluster_info) is Some);
    }
    assert forall|i: int| 0 <= i < pick.len() implies {
        &&& 0 <= at[i] < first.len()
        &&& 0 <= first[at[i]] < known.len()
        &&& #[trigger] pick[i] == known[first[at[i]]]
        &&& order[i] == nodes[first[at[i]]]
        &&& order[i].pubkey == staked_nodes[pick[i]].0
        &&& order[i].stake == staked_nodes[pick[i]].1
    } by {
        assert(order[i] == kept[at[i]]);
        assert(kept[at[i]] == nodes[first[at[i]]]);
    }
    assert forall|i: int| 0 <= i < pick.len() implies known.contains(#[trigger] pick[i]) by {
        assert(pick[i] == known[first[at[i]]]);
    }
    assert(pick.no_duplicates()) by {
        assert forall|i: int, j: int|
            0 <= i < pick.len() && 0 <= j < pick.len() && i != j implies pick[i] != pick[j] by {
            assert(at[i] != at[j]);
            let x = first[at[i]];
            let y = first[at[j]];
            assert(x != y);
            if x < y {
                assert(known[x] < known[y]);
            } else {
                assert(known[y] < known[x]);
            }
        }
    }
    assert forall|i: int, j: int| 0 <= i <= j < pick.len() implies staked_nodes[
    #[trigger] pick[i]].1 <= staked_nodes[#[trigger] pick[j]].1 by {
        assert(order[i].stake <= order[j].stake);
    }
    assert forall|a: int| 0 <= a < known.len() implies (#[trigger] pick.contains(known[a])
        <==> first.contains(a)) by {
        if first.contains(a) {
            let b = choose|b: int| 0 <= b < first.len() && first[b] == a;
            assert(at.contains(b));
            let i = choose|i: int| 0 <= i < at.len() && at[i] == b;
            assert(pick[i] == known[a]);
        }
        if pick.contains(known[a]) {
            let i = choose|i: int| 0 <= i < pick.len() && pick[i] == known[a];
            let x = first[at[i]];
            if x < a {
                assert(known[x] < known[a]);
            } else if a < x {
                assert(known[a] < known[x]);
            }
            assert(first[at[i]] == a);
        }
    }
    if known.len() > 0 {
        assert(first.contains(0));
        assert(pick.contains(known[0]));
    }
    assert forall|a: int| 0 < a < known.len() implies (#[trigger] pick.contains(known[a])
        <==> !exists|socket: SocketAddr|
        gossip.contains((staked_nodes[known[a]].0, ContactInfo { alpenglow: Some(socket) }))
            && #[trigger] gossip.contains(
            (staked_nodes[known[a - 1]].0, ContactInfo { alpenglow: Some(socket) }),
        )) by {
        let b = a - 1;
        assert(0 <= known[b] < staked_nodes.len());
        assert forall|socket: SocketAddr|
            gossip.contains((staked_nodes[known[a]].0, ContactInfo { alpenglow: Some(socket) }))
                && #[trigger] gossip.contains(
                (staked_nodes[known[b]].0, ContactInfo { alpenglow: Some(socket) }),
            ) implies nodes[b].alpenglow_socket == nodes[a].alpenglow_socket by {
            law_gossip_is_a_map(cluster_info, staked_nodes[known[a]].0, socket);
            law_gossip_is_a_map(cluster_info, staked_nodes[known[b]].0, socket);
            law_gossip_is_a_map(cluster_info, staked_nodes[known[a]].0, nodes[a].alpenglow_socket);
            law_gossip_is_a_map(cluster_info, staked_nodes[known[b]].0, nodes[b].alpenglow_socket);
        }
        if nodes[b].alpenglow_socket == nodes[a].alpenglow_socket {
            assert(gossip.contains(
                (
                    staked_nodes[known[b]].0,
                    ContactInfo { alpenglow: Some(nodes[b].alpenglow_socket) },
                ),
            ));
        }
    }
    assert forall|i: int| 0 <= i < pick.len() implies {
        ||| port_override is Some && port_override->0.overrides().contains(
            (staked_nodes[#[trigger] pick[i]].0, sockets[i]),
        )
        ||| gossip.contains(
            (staked_nodes[pick[i]].0, ContactInfo { alpenglow: Some(sockets[i]) }),
        ) && (port_override is Some ==> forall|n: int|
            0 <= n < port_override->0.overrides().len() ==> (
            #[trigger] port_override->0.overrides()[n]).0 != staked_nodes[pick[i]].0)
    } by {
        law_one_socket_at_each_place(order, port_override, i);
        assert(known.contains(pick[i]));
    }
    (known, pick)
}

/// Every socket in a list is that of a validator with a stake above zero, which is not the running
/// validator unless that one counts too, and for which the port override or else gossip names it.
pub proof fn law_listed_sockets_are_those_of_staked_validators(
    sockets: Seq<SocketAddr>,
    staked_nodes: Seq<(Pubkey, u64)>,
    include_self: bool,
    cluster_info: ClusterInfo,
    port_override: Option<&AlpenglowPortOverride>,
    i: int,
) -> (k: int)
    requires
        is_socket_list(sockets, staked_nodes, include_self, cluster_info, port_override),
        no_key_twice(cluster_info.contact_infos@),
        port_override is Some ==> no_key_twice(port_override->0.overrides()),
        0 <= i < sockets.len(),
    ensures
        0 <= k < staked_nodes.len(),
        staked_nodes[k].1 > 0,
        include_self || staked_nodes[k].0 != cluster_info.id,
        port_override is None ==> cluster_info.contact_infos@.contains(
            (staked_nodes[k].0, ContactInfo { alpenglow: Some(sockets[i]) }),
        ),
        port_override is Some ==> {
            ||| port_override->0.overrides().contains((staked_nodes[k].0, sockets[i]))
            ||| cluster_info.contact_infos@.contains(
                (staked_nodes[k].0, ContactInfo { alpenglow: Some(sockets[i]) }),
            ) && (forall|n: int|
                0 <= n < port_override->0.overrides().len() ==> (
                #[trigger] port_override->0.overrides()[n]).0 != staked_nodes[k].0)
        },
{
    let (known, pick) = law_list_in_full(
        sockets,
        staked_nodes,
        include_self,
        cluster_info,
        port_override,
    );
    assert(known.contains(pick[i]));
    let a = choose|a: int| 0 <= a < known.len() && known[a] == pick[i];
    assert(staked_nodes[known[a]].1 > 0);
    pick[i]
}

/// Without an override, the socket of every validator with a stake above zero is in the list, where
/// gossip names it, unless the validator is the running one and does not count.
pub proof fn law_every_staked_validator_is_listed(
    sockets: Seq<SocketAddr>,
    staked_nodes: Seq<(Pubkey, u64)>,
    include_self: bool,
    cluster_info: ClusterInfo,
    k: int,
    socket: SocketAddr,
)
    requires
        is_socket_list(sockets, staked_nodes, include_self, cluster_info, None),
        no_key_twice(cluster_info.contact_infos@),
        0 <= k < staked_nodes.len(),
        staked_nodes[k].1 > 0,
        include_self || staked_nodes[k].0 != cluster_info.id,
        cluster_info.contact_infos@.contains(
            (staked_nodes[k].0, ContactInfo { alpenglow: Some(socket) }),
        ),
    ensures
        sockets.contains(socket),
{
    law_gossip_is_a_map(cluster_info, staked_nodes[k].0, socket);
    crate::laws::law_every_socket_is_listed(
        sockets,
        staked_nodes,
        include_self,
        cluster_info,
        k,
    );
}

/// Whether no two pairs on call at different places have the same socket from gossip.
pub open spec fn no_socket_shared(
    staked_nodes: Seq<(Pubkey, u64)>,
    include_self: bool,
    cluster_info: ClusterInfo,
) -> bool {
    forall|j: int, k: int, socket: SocketAddr|
        {
            &&& 0 <= j < k < staked_nodes.len()
            &&& staked_nodes[j].1 > 0
            &&& staked_nodes[k].1 > 0
            &&& include_self || staked_nodes[j].0 != cluster_info.id
            &&& include_self || staked_nodes[k].0 != cluster_info.id
            &&& #[trigger] cluster_info.contact_infos@.contains(
                (staked_nodes[j].0, ContactInfo { alpenglow: Some(socket) }),
            )
        } ==> !#[trigger] cluster_info.contact_infos@.contains(
            (staked_nodes[k].0, ContactInfo { alpenglow: Some(socket) }),
        )
}

/// Where no two validators share a socket, every one that is on call has its place in the list, and
/// no other: there are as many sockets as there are pairs on call. At its place stands the socket
/// that the port override names for it, and where it names none the one that gossip names. Of two
/// validators the one with the smaller stake stands before the other.
pub proof fn law_places_in_the_list(
    sockets: Seq<SocketAddr>,
    staked_nodes: Seq<(Pubkey, u64)>,
    include_self: bool,
    cluster_info: ClusterInfo,
    port_override: Option<&AlpenglowPortOverride>,
) -> (places: (Map<int, int>, Seq<int>))
    requires
        is_socket_list(sockets, staked_nodes, include_self, cluster_info, port_override),
        no_key_twice(cluster_info.contact_infos@),
        port_override is Some ==> no_key_twice(port_override->0.overrides()),
        no_socket_shared(staked_nodes, include_self, cluster_info),
    ensures
        ({
            let (place, pair_at) = places;
            let gossip = cluster_info.contact_infos@;
            &&& forall|k: int| #[trigger]
                place.contains_key(k) <==> 0 <= k < staked_nodes.len() && staked_nodes[k].1 > 0 && (
                include_self || staked_nodes[k].0 != cluster_info.id) && exists|socket: SocketAddr|
                    #[trigger]
                    gossip.contains(
                        (staked_nodes[k].0, ContactInfo { alpenglow: Some(socket) }),
                    )
            &&& forall|k: int| #[trigger]
                place.contains_key(k) ==> 0 <= place[k] < sockets.len() && pair_at[place[k]] == k
                    && {
                    ||| port_override is Some && port_override->0.overrides().contains(
                        (staked_nodes[k].0, sockets[place[k]]),
                    )
                    ||| gossip.contains(
                        (staked_nodes[k].0, ContactInfo { alpenglow: Some(sockets[place[k]]) }),
                    ) && (port_override is Some ==> forall|n: int|
                        0 <= n < port_override->0.overrides().len() ==> (
                        #[trigger] port_override->0.overrides()[n]).0 != staked_nodes[k].0)
                }
            &&& pair_at.len() == sockets.len()
            &&& forall|i: int|
                0 <= i < sockets.len() ==> place.contains_key(#[trigger] pair_at[i])
                    && place[pair_at[i]] == i
            &&& forall|j: int, k: int| #[trigger]
                place.contains_key(j) && #[trigger] place.contains_key(k) && staked_nodes[j].1
                    < staked_nodes[k].1 ==> place[j] < place[k]
        }),
{
    let gossip = cluster_info.contact_infos@;
    let (known, pick) = law_list_in_full(
        sockets,
        staked_nodes,
        include_self,
        cluster_info,
        port_override,
    );
    let place = Map::new(
        |k: int| known.contains(k),
        |k: int| choose|i: int| 0 <= i < pick.len() && pick[i] == k,
    );
    assert forall|k: int| #[trigger] place.contains_key(k) implies pick.contains(k) by {
        let a = choose|a: int| 0 <= a < known.len() && known[a] == k;
        if a > 0 {
            let b = a - 1;
            assert(known[b] < known[a]);
            assert(0 <= known[b] < staked_nodes.len());
            assert(pick.contains(known[a]));
        } else {
            assert(known[0] == k);
        }
    }
    assert forall|k: int| #[trigger]
        place.contains_key(k) <==> 0 <= k < staked_nodes.len() && staked_nodes[k].1 > 0 && (
        include_self || staked_nodes[k].0 != cluster_info.id) && exists|socket: SocketAddr|
            #[trigger]
            gossip.contains((staked_nodes[k].0, ContactInfo { alpenglow: Some(socket) })) by {
        if place.contains_key(k) {
            let a = choose|a: int| 0 <= a < known.len() && known[a] == k;
            assert(0 <= known[a] < staked_nodes.len());
        }
    }
    assert forall|k: int| #[trigger] place.contains_key(k) implies 0 <= place[k] < sockets.len()
        && pick[place[k]] == k by {
        assert(pick.contains(k));
    }
    assert forall|i: int| 0 <= i < sockets.len() implies place.contains_key(#[trigger] pick[i])
        && place[pick[i]] == i by {
        assert(known.contains(pick[i]));
        let j = place[pick[i]];
        assert(pick[j] == pick[i]);
    }
    assert forall|j: int, k: int| #[trigger]
        place.contains_key(j) && #[trigger] place.contains_key(k) && staked_nodes[j].1
            < staked_nodes[k].1 implies place[j] < place[k] by {
        if place[k] <= place[j] {
            assert(staked_nodes[pick[place[k]]].1 <= staked_nodes[pick[place[j]]].1);
        }
    }
    (place, pick)
}

/// Without an override, and where no two validators share a socket, the socket of the pair with the
/// smaller stake stands before that of the pair with the larger one.
pub proof fn law_sockets_come_by_ascending_stake(
    sockets: Seq<SocketAddr>,
    staked_nodes: Seq<(Pubkey, u64)>,
    include_self: bool,
    cluster_info: ClusterInfo,
    j: int,
    smaller: SocketAddr,
    k: int,
    larger: SocketAddr,
) -> (places: (int, int))
    requires
        is_socket_list(sockets, staked_nodes, include_self, cluster_info, None),
        no_key_twice(cluster_info.contact_infos@),
        no_socket_shared(staked_nodes, include_self, cluster_info),
        0 <= j < staked_nodes.len(),
        0 <= k < staked_nodes.len(),
        0 < staked_nodes[j].1 < staked_nodes[k].1,
        include_self || staked_nodes[j].0 != cluster_info.id,
        include_self || staked_nodes[k].0 != cluster_info.id,
        cluster_info.contact_infos@.contains(
            (staked_nodes[j].0, ContactInfo { alpenglow: Some(smaller) }),
        ),
        cluster_info.contact_infos@.contains(
            (staked_nodes[k].0, ContactInfo { alpenglow: Some(larger) }),
        ),
    ensures
        0 <= places.0 < places.1 < sockets.len(),
        sockets[places.0] == smaller,
        sockets[places.1] == larger,
        forall|i: int| 0 <= i < sockets.len() && sockets[i] == smaller ==> i == places.0,
        forall|i: int| 0 <= i < sockets.len() && sockets[i] == larger ==> i == places.1,
{
    let (place, pair_at) = law_places_in_the_list(
        sockets,
        staked_nodes,
        include_self,
        cluster_info,
        None,
    );
    assert(place.contains_key(j) && place.contains_key(k));
    law_gossip_is_a_map(cluster_info, staked_nodes[j].0, smaller);
    law_gossip_is_a_map(cluster_info, staked_nodes[j].0, sockets[place[j]]);
    law_gossip_is_a_map(cluster_info, staked_nodes[k].0, larger);
    law_gossip_is_a_map(cluster_info, staked_nodes[k].0, sockets[place[k]]);
    assert forall|i: int| 0 <= i < sockets.len() && sockets[i] == smaller implies i == place[j] by {
        let m = pair_at[i];
        assert(place.contains_key(m));
        if m < j || j < m {
            assert(cluster_info.contact_infos@.contains(
                (staked_nodes[m].0, ContactInfo { alpenglow: Some(smaller) }),
            ));
        }
    }
    assert forall|i: int| 0 <= i < sockets.len() && sockets[i] == larger implies i == place[k] by {
        let m = pair_at[i];
        assert(place.contains_key(m));
        if m < k || k < m {
            assert(cluster_info.contact_infos@.contains(
                (staked_nodes[m].0, ContactInfo { alpenglow: Some(larger) }),
            ));
        }
    }
    (place[j], place[k])
}

} // verus!
