//! What the cache reads of the banks: the epoch schedule and the stakes of each epoch.

use std::collections::HashMap;

use solana_clock::{Epoch, Slot};
use vstd::arithmetic::logarithm::log;
use vstd::prelude::*;

use crate::net::Pubkey;

verus! {

broadcast use vstd::std_specs::hash::group_hash_axioms;

/// The length of the first epoch of a warmup, in slots.
pub const MINIMUM_SLOTS_PER_EPOCH: u64 = 32;

/// How slots are divided into epochs.
#[derive(Clone, Copy, Debug, PartialEq, Eq, Structural)]
pub struct EpochSchedule {
    /// The number of slots in each epoch after the warmup
    pub slots_per_epoch: u64,
    /// How many slots before an epoch its leader schedule is computed
    pub leader_schedule_slot_offset: u64,
    /// Whether epochs start short and grow
    pub warmup: bool,
    /// The first epoch after the warmup
    pub first_normal_epoch: Epoch,
    /// The first slot after the warmup
    pub first_normal_slot: Slot,
}

impl EpochSchedule {
    /// The epoch that `slot` belongs to.
    ///
    /// During the warmup the epochs double in length, from 32 slots on, so the epoch `e` begins at
    /// the slot `32 * (2^e - 1)`. After it all have the same length.
    pub open spec fn epoch_of(self, slot: Slot) -> Epoch {
        if slot < self.first_normal_slot {
            (log(2, slot + MINIMUM_SLOTS_PER_EPOCH) - log(2, MINIMUM_SLOTS_PER_EPOCH as int)) as u64
        } else if self.slots_per_epoch == 0 {
            self.first_normal_epoch
        } else {
            let epoch = self.first_normal_epoch + (slot - self.first_normal_slot)
                / self.slots_per_epoch as int;
            if epoch <= u64::MAX {
                epoch as u64
            } else {
                u64::MAX
            }
        }
    }

    /// Whether the epoch of `slot` can be computed: the first power of two above `slot + 32` has to
    /// fit a `u64` where `slot` lies in the warmup. It does wherever the warmup ends as it should,
    /// 32 slots short of a power of two.
    pub open spec fn covers(self, slot: Slot) -> bool {
        slot < self.first_normal_slot ==> slot + MINIMUM_SLOTS_PER_EPOCH
            < 0x8000_0000_0000_0000
    }

    /// `EpochSchedule::get_epoch` of `solana_epoch_schedule`, called on a schedule with the same
    /// fields. Trusted: that it returns the epoch as [`EpochSchedule::epoch_of`] defines it, by the
    /// logarithm during the warmup and by division after it, where a sum that does not fit is cut
    /// to `u64::MAX` and an epoch length of zero counts no epochs. It rounds `slot + 33` up to a
    /// power of two, which overflows for a warmup slot outside [`EpochSchedule::covers`].
    #[verifier::external_body]
    pub(crate) fn get_epoch(&self, slot: Slot) -> (epoch: Epoch)
        requires
            self.covers(slot),
        ensures
            epoch == self.epoch_of(slot),
    {
        solana_epoch_schedule::EpochSchedule {
            slots_per_epoch: self.slots_per_epoch,
            leader_schedule_slot_offset: self.leader_schedule_slot_offset,
            warmup: self.warmup,
            first_normal_epoch: self.first_normal_epoch,
            first_normal_slot: self.first_normal_slot,
        }.get_epoch(slot)
    }
}

/// What the cache reads of one bank.
pub struct Bank {
    pub epoch_schedule: EpochSchedule,
    /// For each epoch that the bank knows, the stake of every node. The nodes stand in the order in
    /// which the bank's own table was walked, which means nothing.
    pub epoch_stakes: HashMap<Epoch, Vec<(Pubkey, u64)>>,
}

impl Bank {
    /// The stakes of the nodes in `epoch`, where this bank knows them.
    pub open spec fn staked_nodes(self, epoch: Epoch) -> Option<Seq<(Pubkey, u64)>> {
        if self.epoch_stakes@.contains_key(epoch) {
            Some(self.epoch_stakes@[epoch]@)
        } else {
            None
        }
    }

    pub fn epoch_staked_nodes(&self, epoch: Epoch) -> (nodes: Option<&Vec<(Pubkey, u64)>>)
        ensures
            self.staked_nodes(epoch) is Some <==> nodes is Some,
            nodes is Some ==> self.staked_nodes(epoch) == Some(nodes->0@),
            nodes is Some <==> self.epoch_stakes@.contains_key(epoch),
            nodes is Some ==> nodes->0@ == self.epoch_stakes@[epoch]@,
    {
        self.epoch_stakes.get(&epoch)
    }
}

/// What the cache reads of the bank forks.
pub struct BankForks {
    pub root_bank: Bank,
    pub working_bank: Bank,
}

impl BankForks {
    /// The stakes of the nodes in `epoch`: those of the root bank, where it knows the epoch, else
    /// those of the working bank, else none.
    pub open spec fn staked_nodes(self, epoch: Epoch) -> Seq<(Pubkey, u64)> {
        match (self.root_bank.staked_nodes(epoch), self.working_bank.staked_nodes(epoch)) {
            (Some(nodes), _) => nodes,
            (None, Some(nodes)) => nodes,
            (None, None) => Seq::empty(),
        }
    }

    pub fn epoch_staked_nodes(&self, epoch: Epoch) -> (nodes: Option<&Vec<(Pubkey, u64)>>)
        ensures
            nodes is None ==> self.root_bank.staked_nodes(epoch) is None
                && self.working_bank.staked_nodes(epoch) is None,
            nodes is Some ==> (self.root_bank.staked_nodes(epoch) is Some
                || self.working_bank.staked_nodes(epoch) is Some) && nodes->0@
                == self.staked_nodes(epoch),
            nodes is Some <==> self.root_bank.epoch_stakes@.contains_key(epoch)
                || self.working_bank.epoch_stakes@.contains_key(epoch),
            self.root_bank.epoch_stakes@.contains_key(epoch) ==> nodes->0@
                == self.root_bank.epoch_stakes@[epoch]@,
            nodes is Some && !self.root_bank.epoch_stakes@.contains_key(epoch) ==> nodes->0@
                == self.working_bank.epoch_stakes@[epoch]@,
    {
        match self.root_bank.epoch_staked_nodes(epoch) {
            Some(nodes) => Some(nodes),
            None => self.working_bank.epoch_staked_nodes(epoch),
        }
    }
}

} // verus!
