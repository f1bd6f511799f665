//! Sockets that replace those from gossip.

use vstd::prelude::*;

use crate::net::{Pubkey, SocketAddr};
use crate::time::Instant;

verus! {

/// Sockets to use for some validators in place of those known through gossip, for tests.
#[derive(Clone, Debug)]
pub struct AlpenglowPortOverride {
    override_map: Vec<(Pubkey, SocketAddr)>,
    last_modified: Instant,
}

impl AlpenglowPortOverride {
    /// The sockets to use, by validator.
    pub closed spec fn overrides(self) -> Seq<(Pubkey, SocketAddr)> {
        self.override_map@
    }

    /// When the sockets were last changed.
    pub closed spec fn modified(self) -> Instant {
        self.last_modified
    }

    /// An override of no socket, made at `now`.
    pub fn new(now: Instant) -> (port_override: AlpenglowPortOverride)
        ensures
            port_override.overrides() == Seq::<(Pubkey, SocketAddr)>::empty(),
            port_override.modified() == now,
    {
        AlpenglowPortOverride { override_map: Vec::new(), last_modified: now }
    }

    /// Replaces all overrides at `now`.
    pub fn update_override(&mut self, new_override: Vec<(Pubkey, SocketAddr)>, now: Instant)
        ensures
            final(self).overrides() == new_override@,
            final(self).modified() == now,
    {
        self.override_map = new_override;
        self.last_modified = now;
    }

    /// Drops all overrides at `now`.
    pub fn clear(&mut self, now: Instant)
        ensures
            final(self).overrides() == Seq::<(Pubkey, SocketAddr)>::empty(),
            final(self).modified() == now,
    {
        self.override_map = Vec::new();
        self.last_modified = now;
    }

    /// Whether the overrides have been changed since someone who saw them last modified at
    /// `previous`.
    pub fn has_new_override(&self, previous: Instant) -> (changed: bool)
        ensures
            changed == (self.modified() != previous),
    {
        self.last_modified != previous
    }

    pub fn last_modified(&self) -> (modified: Instant)
        ensures
            modified == self.modified(),
    {
        self.last_modified
    }

    pub fn get_override_map(&self) -> (overrides: &Vec<(Pubkey, SocketAddr)>)
        ensures
            overrides@ == self.overrides(),
    {
        &self.override_map
    }
}

} // verus!
