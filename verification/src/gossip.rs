//! What the cache reads of the gossip table.

use vstd::prelude::*;

use crate::net::{find_value, value_of, Pubkey, SocketAddr};

verus! {

/// What the cache reads of the contact info of one node.
#[derive(Clone, Copy, Debug, PartialEq, Eq, Structural)]
pub struct ContactInfo {
    /// The node's Alpenglow socket, where it has published one
    pub alpenglow: Option<SocketAddr>,
}

/// What the cache reads of the cluster info.
pub struct ClusterInfo {
    /// The identity of the running validator
    pub id: Pubkey,
    /// The contact infos known through gossip, by node
    pub contact_infos: Vec<(Pubkey, ContactInfo)>,
}

impl ClusterInfo {
    /// The Alpenglow socket of the node `pubkey`, where its contact info is known and holds one.
    pub open spec fn alpenglow_socket(self, pubkey: Pubkey) -> Option<SocketAddr> {
        match value_of(self.contact_infos@, pubkey) {
            Some(contact_info) => contact_info.alpenglow,
            None => None,
        }
    }

    pub fn lookup_contact_info(&self, pubkey: &Pubkey) -> (contact_info: Option<ContactInfo>)
        ensures
            contact_info == value_of(self.contact_infos@, *pubkey),
    {
        find_value(&self.contact_infos, pubkey)
    }
}

} // verus!
