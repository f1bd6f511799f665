//! The cache over whole sets of staked nodes.

use std::collections::HashMap;

use staked_validators_cache::{
    AlpenglowPortOverride, Bank, BankForks, ClusterInfo, ContactInfo, Duration, EpochSchedule,
    Instant, Pubkey, SocketAddr, StakedValidatorsCache,
};

const LOCALHOST: u32 = 0x7f00_0001;

fn secs(secs: u64) -> Duration {
    Duration { nanos: std::time::Duration::from_secs(secs).as_nanos() }
}

fn secs_f64(secs: f64) -> Duration {
    Duration { nanos: std::time::Duration::from_secs_f64(secs).as_nanos() }
}

/// A clock that moves on with every look at it.
struct Ticker {
    nanos: u128,
}

impl Ticker {
    fn now(&mut self) -> Instant {
        self.nanos += 1_000;
        Instant { nanos: self.nanos }
    }
}

fn unique_pubkey(ix: usize) -> Pubkey {
    let mut bytes = [7_u8; 32];
    bytes[24..].copy_from_slice(&(ix as u64).to_be_bytes());
    Pubkey { bytes }
}

fn epoch_schedule() -> EpochSchedule {
    let schedule = solana_epoch_schedule::EpochSchedule::default();
    EpochSchedule {
        slots_per_epoch: schedule.slots_per_epoch,
        leader_schedule_slot_offset: schedule.leader_schedule_slot_offset,
        warmup: schedule.warmup,
        first_normal_epoch: schedule.first_normal_epoch,
        first_normal_slot: schedule.first_normal_slot,
    }
}

/// A number of nodes, each with one or more vote accounts. Each vote account has a stake in
/// [1, 997), with the exception of those of the first few nodes, which have exactly 0 stake.
fn build_epoch_stakes(
    num_nodes: usize,
    num_zero_stake_nodes: usize,
    num_vote_accounts: usize,
) -> Vec<(Pubkey, u64)> {
    let mut seed = 0x2545_f491_4f6c_dd1d_u64;
    let mut nodes: Vec<(Pubkey, u64)> =
        (0..num_nodes).map(|node_ix| (unique_pubkey(node_ix), 0)).collect();
    for account_ix in 0..num_vote_accounts {
        let node_ix = account_ix % num_nodes;
        seed ^= seed << 13;
        seed ^= seed >> 7;
        seed ^= seed << 17;
        if node_ix >= num_zero_stake_nodes {
            nodes[node_ix].1 += 1 + seed % 996;
        }
    }
    nodes
}

struct Harness {
    bank_forks: BankForks,
    cluster_info: ClusterInfo,
}

impl Harness {
    fn new(id: Pubkey, slot: u64, staked_nodes: &[(Pubkey, u64)]) -> Self {
        let contact_infos = staked_nodes
            .iter()
            .enumerate()
            .map(|(node_ix, (pubkey, _))| {
                let port = 8080_u16.saturating_add(node_ix as u16);
                let socket = SocketAddr::V4 { ip: LOCALHOST, port };
                (*pubkey, ContactInfo { alpenglow: Some(socket) })
            })
            .collect();
        let bank = || {
            let epoch_schedule = epoch_schedule();
            let mut bank = Bank { epoch_schedule, epoch_stakes: HashMap::new() };
            let forks = BankForks {
                root_bank: Bank { epoch_schedule, epoch_stakes: HashMap::new() },
                working_bank: Bank { epoch_schedule, epoch_stakes: HashMap::new() },
            };
            let epoch = StakedValidatorsCache::cur_epoch(&forks, slot);
            bank.epoch_stakes.insert(epoch, staked_nodes.to_vec());
            bank
        };
        Harness {
            bank_forks: BankForks { root_bank: bank(), working_bank: bank() },
            cluster_info: ClusterInfo { id, contact_infos },
        }
    }
}

fn later(now: Instant, duration: Duration) -> Instant {
    now.checked_add(duration).unwrap()
}

fn detect_only_staked_nodes_and_refresh_after_ttl(
    num_nodes: usize,
    num_zero_stake_nodes: usize,
    num_vote_accounts: usize,
) {
    let slot_num = 325_000_000_u64;
    let staked_nodes = build_epoch_stakes(num_nodes, num_zero_stake_nodes, num_vote_accounts);
    let harness = Harness::new(unique_pubkey(9_999), slot_num, &staked_nodes);
    let (bank_forks, cluster_info) = (&harness.bank_forks, &harness.cluster_info);
    let mut clock = Ticker { nanos: 0 };

    // Create our staked validators cache
    let mut svc = StakedValidatorsCache::new(secs(5), 5, true, clock.now());

    let now = clock.now();

    let (sockets, refreshed) =
        svc.get_staked_validators_by_slot(slot_num, bank_forks, cluster_info, None, now);

    assert!(refreshed);
    assert_eq!(num_nodes.saturating_sub(num_zero_stake_nodes), sockets.len());
    assert_eq!(1, svc.len());

    // Re-fetch from the cache right before the 5-second deadline
    let (sockets, refreshed) = svc.get_staked_validators_by_slot(
        slot_num,
        bank_forks,
        cluster_info,
        None,
        later(now, secs_f64(4.999)),
    );

    assert!(!refreshed);
    assert_eq!(num_nodes.saturating_sub(num_zero_stake_nodes), sockets.len());
    assert_eq!(1, svc.len());

    // Re-fetch from the cache right at the 5-second deadline - we still shouldn't refresh.
    let (sockets, refreshed) = svc.get_staked_validators_by_slot(
        slot_num,
        bank_forks,
        cluster_info,
        None,
        later(now, secs(5)),
    );
    assert!(!refreshed);
    assert_eq!(num_nodes.saturating_sub(num_zero_stake_nodes), sockets.len());
    assert_eq!(1, svc.len());

    // Re-fetch from the cache right after the 5-second deadline - now we should refresh.
    let (sockets, refreshed) = svc.get_staked_validators_by_slot(
        slot_num,
        bank_forks,
        cluster_info,
        None,
        later(now, secs_f64(5.001)),
    );

    assert!(refreshed);
    assert_eq!(num_nodes.saturating_sub(num_zero_stake_nodes), sockets.len());
    assert_eq!(1, svc.len());

    // Re-fetch from the cache well after the 5-second deadline - we should refresh.
    let (sockets, refreshed) = svc.get_staked_validators_by_slot(
        slot_num,
        bank_forks,
        cluster_info,
        None,
        later(now, secs(100)),
    );

    assert!(refreshed);
    assert_eq!(num_nodes.saturating_sub(num_zero_stake_nodes), sockets.len());
    assert_eq!(1, svc.len());
}

#[test]
fn test_detect_only_staked_nodes_and_refresh_after_ttl_one_node() {
    detect_only_staked_nodes_and_refresh_after_ttl(1, 0, 10);
}

#[test]
fn test_detect_only_staked_nodes_and_refresh_after_ttl_few_nodes() {
    detect_only_staked_nodes_and_refresh_after_ttl(10, 2, 10);
}

#[test]
fn test_detect_only_staked_nodes_and_refresh_after_ttl_many_nodes() {
    detect_only_staked_nodes_and_refresh_after_ttl(50, 7, 60);
}

#[test]
fn test_cache_eviction() {
    let staked_nodes = build_epoch_stakes(50, 7, 60);

    let base_slot = 325_000_000_000_u64;
    let harness = Harness::new(unique_pubkey(9_999), base_slot, &staked_nodes);
    let (bank_forks, cluster_info) = (&harness.bank_forks, &harness.cluster_info);
    let mut clock = Ticker { nanos: 0 };

    // Create our staked validators cache
    let mut svc = StakedValidatorsCache::new(secs(5), 5, true, clock.now());

    assert_eq!(0, svc.len());
    assert!(svc.is_empty());

    let now = clock.now();

    // Populate the first five entries; accessing the cache once again shouldn't trigger any
    // refreshes.
    for entry_ix in 1_u64..=5_u64 {
        let (_, refreshed) = svc.get_staked_validators_by_slot(
            entry_ix.saturating_mul(base_slot),
            bank_forks,
            cluster_info,
            None,
            now,
        );
        assert!(refreshed);
        assert_eq!(entry_ix as usize, svc.len());

        let (_, refreshed) = svc.get_staked_validators_by_slot(
            entry_ix.saturating_mul(base_slot),
            bank_forks,
            cluster_info,
            None,
            now,
        );
        assert!(!refreshed);
        assert_eq!(entry_ix as usize, svc.len());
    }

    // Entry 6 - this shouldn't increase the cache length.
    let (_, refreshed) =
        svc.get_staked_validators_by_slot(6 * base_slot, bank_forks, cluster_info, None, now);
    assert!(refreshed);
    assert_eq!(5, svc.len());

    // Epoch 1 should have been evicted
    assert!(!svc.contains(StakedValidatorsCache::cur_epoch(bank_forks, base_slot)));

    // Epochs 2 - 6 should have entries
    for entry_ix in 2_u64..=6_u64 {
        assert!(svc.contains(StakedValidatorsCache::cur_epoch(
            bank_forks,
            entry_ix.saturating_mul(base_slot)
        )));
    }

    // Accessing the cache after TTL should recalculate everything; the size remains 5, since
    // we only ever lazily evict cache entries.
    for entry_ix in 1_u64..=5_u64 {
        let (_, refreshed) = svc.get_staked_validators_by_slot(
            entry_ix.saturating_mul(base_slot),
            bank_forks,
            cluster_info,
            None,
            later(now, secs(10)),
        );
        assert!(refreshed);
        assert_eq!(5, svc.len());
    }
}

#[test]
fn test_only_update_once_per_epoch() {
    let slot_num = 325_000_000_u64;
    let num_nodes = 10_usize;
    let num_zero_stake_nodes = 2_usize;
    let num_vote_accounts = 10_usize;

    let staked_nodes = build_epoch_stakes(num_nodes, num_zero_stake_nodes, num_vote_accounts);
    let harness = Harness::new(unique_pubkey(9_999), slot_num, &staked_nodes);
    let (bank_forks, cluster_info) = (&harness.bank_forks, &harness.cluster_info);
    let mut clock = Ticker { nanos: 0 };

    // Create our staked validators cache
    let mut svc = StakedValidatorsCache::new(secs(5), 5, true, clock.now());

    let now = clock.now();

    let (_, refreshed) =
        svc.get_staked_validators_by_slot(slot_num, bank_forks, cluster_info, None, now);
    assert!(refreshed);

    let (_, refreshed) =
        svc.get_staked_validators_by_slot(slot_num, bank_forks, cluster_info, None, now);
    assert!(!refreshed);

    let (_, refreshed) =
        svc.get_staked_validators_by_slot(2 * slot_num, bank_forks, cluster_info, None, now);
    assert!(refreshed);
}

fn exclude_self_from_cache(num_nodes: usize) {
    let slot_num = 325_000_000_u64;
    let num_vote_accounts = 10_usize;

    let staked_nodes = build_epoch_stakes(num_nodes, 0, num_vote_accounts);

    // Fetch some identity from the staked nodes
    let id = staked_nodes[0].0;
    let harness = Harness::new(id, slot_num, &staked_nodes);
    let (bank_forks, cluster_info) = (&harness.bank_forks, &harness.cluster_info);
    let mut clock = Ticker { nanos: 0 };

    let my_socket_addr = cluster_info.lookup_contact_info(&id).unwrap().alpenglow.unwrap();

    // Create our staked validators cache - set include_self to true
    let mut svc = StakedValidatorsCache::new(secs(5), 5, true, clock.now());

    let (sockets, _) =
        svc.get_staked_validators_by_slot(slot_num, bank_forks, cluster_info, None, clock.now());
    assert_eq!(sockets.len(), num_nodes);
    assert!(sockets.contains(&my_socket_addr));

    // Create our staked validators cache - set include_self to false
    let mut svc = StakedValidatorsCache::new(secs(5), 5, false, clock.now());

    let (sockets, _) =
        svc.get_staked_validators_by_slot(slot_num, bank_forks, cluster_info, None, clock.now());
    // We should have num_nodes - 1 sockets, since we exclude our own socket address.
    assert_eq!(sockets.len(), num_nodes.checked_sub(1).unwrap());
    assert!(!sockets.contains(&my_socket_addr));
}

#[test]
fn test_exclude_self_from_cache_one_node() {
    exclude_self_from_cache(1);
}

#[test]
fn test_exclude_self_from_cache_ten_nodes() {
    exclude_self_from_cache(10);
}

#[test]
fn test_alpenglow_port_override() {
    let staked_nodes = build_epoch_stakes(3, 0, 3);
    let pubkey_b = staked_nodes[1].0;
    let id = staked_nodes[0].0;
    let mut clock = Ticker { nanos: 0 };

    let mut alpenglow_port_override = AlpenglowPortOverride::new(clock.now());
    let blackhole_addr = SocketAddr::V4 { ip: 0, port: 0 };

    let harness = Harness::new(id, 0, &staked_nodes);
    let (bank_forks, cluster_info) = (&harness.bank_forks, &harness.cluster_info);

    // Create our staked validators cache - set include_self to false
    let mut svc = StakedValidatorsCache::new(secs(5), 5, false, clock.now());
    // Nothing in the override, so we should get the original socket addresses.
    let (sockets, _) = svc.get_staked_validators_by_slot(
        0,
        bank_forks,
        cluster_info,
        Some(&alpenglow_port_override),
        clock.now(),
    );
    assert_eq!(sockets.len(), 2);
    assert!(!sockets.contains(&blackhole_addr));

    // Add an override for pubkey_B, and check that we get the overridden socket address.
    alpenglow_port_override.update_override(vec![(pubkey_b, blackhole_addr)], clock.now());
    let (sockets, _) = svc.get_staked_validators_by_slot(
        0,
        bank_forks,
        cluster_info,
        Some(&alpenglow_port_override),
        clock.now(),
    );
    assert_eq!(sockets.len(), 2);
    // Sort sockets to ensure the blackhole address is at index 0.
    let mut sockets: Vec<_> = sockets.to_vec();
    sockets.sort();
    assert_eq!(sockets[0], blackhole_addr);
    assert_ne!(sockets[1], blackhole_addr);

    // Now clear the override, and check that we get the original socket addresses.
    alpenglow_port_override.clear(clock.now());
    let (sockets, _) = svc.get_staked_validators_by_slot(
        0,
        bank_forks,
        cluster_info,
        Some(&alpenglow_port_override),
        clock.now(),
    );
    assert_eq!(sockets.len(), 2);
    assert!(!sockets.contains(&blackhole_addr));
}
