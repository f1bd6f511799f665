//! Exact results on small inputs.

use std::collections::HashMap;

use staked_validators_cache::nodes::{dedup_by_socket, reachable_nodes, resolve_sockets, sockets_of};
use staked_validators_cache::time::MAX_INSTANT_NANOS;
use staked_validators_cache::{
    AlpenglowPortOverride, Bank, BankForks, ClusterInfo, ContactInfo, Duration, EpochSchedule,
    Instant, Node, Pubkey, SocketAddr, StakedValidatorsCache,
};

fn key(byte: u8) -> Pubkey {
    Pubkey { bytes: [byte; 32] }
}

fn socket(port: u16) -> SocketAddr {
    SocketAddr::V4 { ip: 0x0a00_0001, port }
}

fn at(nanos: u128) -> Instant {
    Instant { nanos }
}

/// Epochs of ten slots each, without a warmup.
fn tens() -> EpochSchedule {
    EpochSchedule {
        slots_per_epoch: 10,
        leader_schedule_slot_offset: 10,
        warmup: false,
        first_normal_epoch: 0,
        first_normal_slot: 0,
    }
}

fn bank(stakes: &[(u64, &[(Pubkey, u64)])]) -> Bank {
    Bank {
        epoch_schedule: tens(),
        epoch_stakes: stakes.iter().map(|(epoch, nodes)| (*epoch, nodes.to_vec())).collect(),
    }
}

/// Gossip that knows node `n` at port `1000 + n`, for `n` up to 9; node 9 has no socket.
fn gossip(id: Pubkey) -> ClusterInfo {
    let contact_infos = (1_u8..=9)
        .map(|n| {
            let alpenglow = if n == 9 { None } else { Some(socket(1000 + u16::from(n))) };
            (key(n), ContactInfo { alpenglow })
        })
        .collect();
    ClusterInfo { id, contact_infos }
}

fn forks() -> BankForks {
    let root: &[(Pubkey, u64)] = &[(key(1), 30), (key(2), 10), (key(3), 20)];
    let working: &[(Pubkey, u64)] = &[(key(4), 5), (key(5), 4)];
    BankForks {
        root_bank: bank(&[(0, root)]),
        working_bank: bank(&[(0, working), (1, working)]),
    }
}

fn with_schedule(epoch_schedule: EpochSchedule) -> BankForks {
    BankForks {
        root_bank: bank(&[]),
        working_bank: Bank { epoch_schedule, epoch_stakes: HashMap::new() },
    }
}

#[test]
fn pubkeys_compare_by_all_their_bytes() {
    let mut other = key(3);
    assert!(key(3) == other);
    other.bytes[31] = 4;
    assert!(key(3) != other);
    assert!(key(3) != key(4));
}

#[test]
fn instants_end_with_the_clock() {
    let end = at(MAX_INSTANT_NANOS);
    assert_eq!(at(3).checked_add(Duration { nanos: 4 }), Some(at(7)));
    assert_eq!(at(MAX_INSTANT_NANOS - 1).checked_add(Duration { nanos: 1 }), Some(end));
    assert_eq!(end.checked_add(Duration { nanos: 1 }), None);
    assert_eq!(end.checked_add(Duration { nanos: u128::MAX }), None);
    let longest = std::time::Duration::MAX.as_nanos();
    assert_eq!(at(0).checked_add(Duration { nanos: longest }), None);
}

#[test]
fn epochs_of_the_default_schedule() {
    let schedule = solana_epoch_schedule::EpochSchedule::default();
    let bank_forks = with_schedule(EpochSchedule {
        slots_per_epoch: schedule.slots_per_epoch,
        leader_schedule_slot_offset: schedule.leader_schedule_slot_offset,
        warmup: schedule.warmup,
        first_normal_epoch: schedule.first_normal_epoch,
        first_normal_slot: schedule.first_normal_slot,
    });
    let expected = [
        (0, 0),
        (31, 0),
        (32, 1),
        (95, 1),
        (96, 2),
        (524_255, 13),
        (524_256, 14),
        (956_255, 14),
        (956_256, 15),
        (325_000_000, 765),
    ];
    for (slot, epoch) in expected {
        assert_eq!(StakedValidatorsCache::cur_epoch(&bank_forks, slot), epoch);
    }
}

#[test]
fn epochs_of_odd_schedules() {
    let none = with_schedule(EpochSchedule {
        slots_per_epoch: 0,
        first_normal_epoch: 3,
        first_normal_slot: 100,
        ..tens()
    });
    assert_eq!(StakedValidatorsCache::cur_epoch(&none, 500), 3);
    assert_eq!(StakedValidatorsCache::cur_epoch(&none, 99), 2);
    let last = with_schedule(EpochSchedule { first_normal_epoch: u64::MAX - 1, ..tens() });
    assert_eq!(StakedValidatorsCache::cur_epoch(&last, 9), u64::MAX - 1);
    assert_eq!(StakedValidatorsCache::cur_epoch(&last, 10), u64::MAX);
    assert_eq!(StakedValidatorsCache::cur_epoch(&last, u64::MAX), u64::MAX);
    let long = with_schedule(EpochSchedule { first_normal_slot: u64::MAX, ..tens() });
    assert_eq!(StakedValidatorsCache::cur_epoch(&long, (1 << 63) - 33), 57);
}

#[test]
fn the_root_bank_comes_first() {
    let bank_forks = forks();
    let ports = |nodes: &Vec<(Pubkey, u64)>| nodes.iter().map(|(_, stake)| *stake).collect::<Vec<_>>();
    assert_eq!(bank_forks.epoch_staked_nodes(0).map(ports), Some(vec![30, 10, 20]));
    assert_eq!(bank_forks.epoch_staked_nodes(1).map(ports), Some(vec![5, 4]));
    assert!(bank_forks.epoch_staked_nodes(2).is_none());
}

#[test]
fn only_eligible_nodes_with_a_socket_are_reachable() {
    let staked = vec![(key(1), 5), (key(2), 0), (key(9), 6), (key(10), 7), (key(3), 8)];
    let node = |n: u8, stake: u64| Node {
        pubkey: key(n),
        stake,
        alpenglow_socket: socket(1000 + u16::from(n)),
    };
    assert_eq!(reachable_nodes(&staked, true, &gossip(key(3))), vec![node(1, 5), node(3, 8)]);
    assert_eq!(reachable_nodes(&staked, false, &gossip(key(3))), vec![node(1, 5)]);
    assert_eq!(reachable_nodes(&staked, false, &gossip(key(2))), vec![node(1, 5), node(3, 8)]);
}

#[test]
fn only_neighbours_are_deduplicated() {
    let node = |n: u8, port: u16| Node { pubkey: key(n), stake: 1, alpenglow_socket: socket(port) };
    let nodes = vec![node(1, 1), node(2, 1), node(3, 2), node(4, 1), node(5, 1), node(6, 1)];
    assert_eq!(dedup_by_socket(&nodes), vec![node(1, 1), node(3, 2), node(4, 1)]);
    assert_eq!(dedup_by_socket(&Vec::new()), vec![]);
}

#[test]
fn overrides_win_over_gossip() {
    let nodes = reachable_nodes(&vec![(key(1), 5), (key(2), 6)], true, &gossip(key(3)));
    let mut port_override = AlpenglowPortOverride::new(at(0));
    assert_eq!(resolve_sockets(&nodes, None), vec![socket(1001), socket(1002)]);
    assert_eq!(resolve_sockets(&nodes, Some(&port_override)), vec![socket(1001), socket(1002)]);
    port_override.update_override(vec![(key(7), socket(6)), (key(2), socket(7))], at(1));
    assert_eq!(resolve_sockets(&nodes, Some(&port_override)), vec![socket(1001), socket(7)]);
}

#[test]
fn sockets_come_by_ascending_stake() {
    let walked = vec![(key(1), 30), (key(2), 10), (key(3), 20)];
    let otherwise_walked = vec![(key(3), 20), (key(1), 30), (key(2), 10)];
    let expected = vec![socket(1002), socket(1003), socket(1001)];
    let cluster_info = gossip(key(8));
    assert_eq!(sockets_of(&walked, true, &cluster_info, None), expected);
    assert_eq!(sockets_of(&otherwise_walked, true, &cluster_info, None), expected);
    assert_eq!(sockets_of(&Vec::new(), true, &cluster_info, None), vec![]);
}

#[test]
fn a_read_is_served_until_it_expires() {
    let cluster_info = gossip(key(8));
    let empty = with_schedule(tens());
    let mut svc = StakedValidatorsCache::new(Duration { nanos: 100 }, 2, true, at(0));
    let expected: &[SocketAddr] = &[socket(1002), socket(1003), socket(1001)];
    let read = svc.get_staked_validators_by_slot(3, &forks(), &cluster_info, None, at(10));
    assert_eq!(read, (expected, true));
    // The banks have forgotten the epoch, which nobody asks them about.
    let read = svc.get_staked_validators_by_slot(9, &empty, &cluster_info, None, at(110));
    assert_eq!(read, (expected, false));
    // An access from before the entry was made does not refresh it either.
    let read = svc.get_staked_validators_by_slot(9, &empty, &cluster_info, None, at(1));
    assert_eq!(read, (expected, false));
    let nothing: &[SocketAddr] = &[];
    let read = svc.get_staked_validators_by_slot(9, &empty, &cluster_info, None, at(111));
    assert_eq!(read, (nothing, true));
}

#[test]
fn a_deadline_beyond_the_clock_is_always_past() {
    let cluster_info = gossip(key(8));
    let ttl = Duration { nanos: MAX_INSTANT_NANOS };
    let mut svc = StakedValidatorsCache::new(ttl, 2, true, at(0));
    for _ in 0..2 {
        assert!(svc.get_staked_validators_by_epoch(0, &forks(), &cluster_info, None, at(1)).1);
    }
    assert!(svc.get_staked_validators_by_epoch(1, &forks(), &cluster_info, None, at(0)).1);
    assert!(!svc.get_staked_validators_by_epoch(1, &forks(), &cluster_info, None, at(0)).1);
    // A new port override has the sockets worked out twice, and the second time is told.
    let port_override = AlpenglowPortOverride::new(at(5));
    let read = svc.get_staked_validators_by_slot(
        0,
        &forks(),
        &cluster_info,
        Some(&port_override),
        at(1),
    );
    assert!(read.1);
}

#[test]
fn a_new_override_is_acted_on_once_and_silently() {
    let cluster_info = gossip(key(8));
    let bank_forks = forks();
    let mut svc = StakedValidatorsCache::new(Duration { nanos: 100 }, 2, true, at(0));
    let mut port_override = AlpenglowPortOverride::new(at(0));
    assert!(!svc.has_new_override(Some(&port_override)));
    assert!(!svc.has_new_override(None));

    let before: &[SocketAddr] = &[socket(1002), socket(1003), socket(1001)];
    let read = svc.get_staked_validators_by_slot(
        0,
        &bank_forks,
        &cluster_info,
        Some(&port_override),
        at(1),
    );
    assert_eq!(read, (before, true));

    port_override.update_override(vec![(key(3), socket(7))], at(2));
    assert!(svc.has_new_override(Some(&port_override)));
    let after: &[SocketAddr] = &[socket(1002), socket(7), socket(1001)];
    let read = svc.get_staked_validators_by_slot(
        0,
        &bank_forks,
        &cluster_info,
        Some(&port_override),
        at(50),
    );
    assert_eq!(read, (after, false));
    assert!(!svc.has_new_override(Some(&port_override)));

    // The entry counts as made at the time of that read.
    assert!(!svc.needs_refresh(0, at(150)));
    assert!(svc.needs_refresh(0, at(151)));

    // An override with an older stamp is a new one too.
    let older = AlpenglowPortOverride::new(at(1));
    assert!(svc.has_new_override(Some(&older)));
    assert_eq!(older.last_modified(), at(1));
}

#[test]
fn only_the_epoch_read_takes_up_a_new_override() {
    let cluster_info = gossip(key(8));
    let bank_forks = forks();
    let mut svc = StakedValidatorsCache::new(Duration { nanos: 100 }, 2, true, at(0));
    let mut port_override = AlpenglowPortOverride::new(at(0));
    svc.get_staked_validators_by_slot(10, &bank_forks, &cluster_info, Some(&port_override), at(1));
    port_override.update_override(vec![(key(4), socket(7))], at(2));
    svc.get_staked_validators_by_slot(0, &bank_forks, &cluster_info, Some(&port_override), at(3));
    let unchanged: &[SocketAddr] = &[socket(1005), socket(1004)];
    let read = svc.get_staked_validators_by_slot(
        10,
        &bank_forks,
        &cluster_info,
        Some(&port_override),
        at(4),
    );
    assert_eq!(read, (unchanged, false));
}

#[test]
fn the_least_recently_used_entry_goes() {
    let cluster_info = gossip(key(8));
    let bank_forks = forks();
    let mut svc = StakedValidatorsCache::new(Duration { nanos: 100 }, 2, true, at(0));
    assert!(svc.is_empty());
    svc.get_staked_validators_by_epoch(0, &bank_forks, &cluster_info, None, at(1));
    svc.get_staked_validators_by_epoch(1, &bank_forks, &cluster_info, None, at(1));
    assert!(!svc.is_empty());
    // Epoch 0 is used again, so epoch 1 is the one to go, though it is not the oldest.
    svc.get_staked_validators_by_epoch(0, &bank_forks, &cluster_info, None, at(2));
    svc.get_staked_validators_by_epoch(2, &bank_forks, &cluster_info, None, at(3));
    assert_eq!(svc.len(), 2);
    assert!(svc.contains(0));
    assert!(!svc.contains(1));
    assert!(svc.contains(2));
    // An expired entry stays until it is read or has to make room.
    svc.get_staked_validators_by_epoch(2, &bank_forks, &cluster_info, None, at(1000));
    assert!(svc.contains(0));
    assert!(svc.needs_refresh(0, at(1000)));
}

#[test]
fn a_cache_for_nothing_stores_nothing() {
    let mut svc = StakedValidatorsCache::new(Duration { nanos: 100 }, 0, true, at(0));
    svc.refresh_cache_entry(0, &forks(), &gossip(key(8)), None, at(1));
    assert!(svc.is_empty());
    assert_eq!(svc.len(), 0);
    assert!(!svc.contains(0));
}

#[test]
fn the_running_validator_is_left_out_on_demand() {
    let bank_forks = forks();
    let cluster_info = gossip(key(3));
    let mut with = StakedValidatorsCache::new(Duration { nanos: 100 }, 1, true, at(0));
    let mut without = StakedValidatorsCache::new(Duration { nanos: 100 }, 1, false, at(0));
    let all: &[SocketAddr] = &[socket(1002), socket(1003), socket(1001)];
    let others: &[SocketAddr] = &[socket(1002), socket(1001)];
    let read = with.get_staked_validators_by_slot(0, &bank_forks, &cluster_info, None, at(1));
    assert_eq!(read, (all, true));
    let read = without.get_staked_validators_by_slot(0, &bank_forks, &cluster_info, None, at(1));
    assert_eq!(read, (others, true));
}

#[test]
fn asking_before_a_read_makes_no_difference() {
    let cluster_info = gossip(key(8));
    let bank_forks = forks();
    let mut svc = StakedValidatorsCache::new(Duration { nanos: 100 }, 2, true, at(0));
    assert!(svc.needs_refresh(0, at(1)));
    assert!(svc.is_empty());
    assert!(svc.get_staked_validators_by_epoch(0, &bank_forks, &cluster_info, None, at(1)).1);
    assert!(!svc.needs_refresh(0, at(101)));
    assert!(!svc.get_staked_validators_by_epoch(0, &bank_forks, &cluster_info, None, at(101)).1);
    assert!(svc.needs_refresh(0, at(102)));
    assert!(svc.get_staked_validators_by_epoch(0, &bank_forks, &cluster_info, None, at(102)).1);
}

#[test]
fn stakes_of_other_epochs_do_not_count() {
    let cluster_info = gossip(key(8));
    let mut bank_forks = forks();
    bank_forks.root_bank.epoch_stakes.insert(2, vec![(key(6), 1)]);
    bank_forks.working_bank.epoch_stakes.insert(0, vec![(key(7), 1)]);
    let mut svc = StakedValidatorsCache::new(Duration { nanos: 100 }, 2, true, at(0));
    let expected: &[SocketAddr] = &[socket(1002), socket(1003), socket(1001)];
    let read = svc.get_staked_validators_by_slot(0, &bank_forks, &cluster_info, None, at(1));
    assert_eq!(read, (expected, true));
}

#[test]
fn a_node_counts_once_for_each_walk_of_a_shared_socket() {
    let mut cluster_info = gossip(key(8));
    cluster_info.contact_infos[1].1.alpenglow = Some(socket(1001));
    let expected = vec![socket(1001), socket(1003)];
    let walked = vec![(key(1), 5), (key(2), 6), (key(3), 7)];
    assert_eq!(sockets_of(&walked, true, &cluster_info, None), expected);
    let expected = vec![socket(1001), socket(1001), socket(1003)];
    let otherwise_walked = vec![(key(1), 5), (key(3), 7), (key(2), 6)];
    assert_eq!(sockets_of(&otherwise_walked, true, &cluster_info, None), expected);
}

#[test]
fn addresses_of_both_families_are_listed() {
    let far = SocketAddr::V6 { ip: 1, port: 9, flowinfo: 0, scope_id: 3 };
    let cluster_info = ClusterInfo {
        id: key(8),
        contact_infos: vec![
            (key(1), ContactInfo { alpenglow: Some(far) }),
            (key(2), ContactInfo { alpenglow: Some(socket(9)) }),
        ],
    };
    let staked = vec![(key(1), 2), (key(2), 1)];
    assert_eq!(sockets_of(&staked, true, &cluster_info, None), vec![socket(9), far]);
}
