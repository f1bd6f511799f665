//! A cache of the sockets of the staked validators of recent epochs.
//!
//! A validator that broadcasts its votes needs, again and again, the sockets of all validators
//! with stake in the current epoch. Working these out walks the stakes of the epoch and looks every
//! node up in the gossip table, so [`StakedValidatorsCache`] keeps the result per epoch: for a
//! bounded number of epochs, the least recently used of which makes room, and for a bounded time.
//!
//! The bank forks, the gossip table and the port overrides are shared state that others change at
//! any time. A read of the cache is handed what they hold at the time of the read.

pub mod bank;
pub mod cache;
pub mod call_laws;
pub mod entries;
pub mod gossip;
pub mod laws;
pub mod list_laws;
pub mod lru_store;
pub mod net;
pub mod nodes;
pub mod port_override;
pub mod read_laws;
pub mod time;

pub use bank::{Bank, BankForks, EpochSchedule};
pub use cache::StakedValidatorsCache;
pub use entries::StakedValidatorsCacheEntry;
pub use gossip::{ClusterInfo, ContactInfo};
pub use net::{Pubkey, SocketAddr};
pub use nodes::Node;
pub use port_override::AlpenglowPortOverride;
pub use time::{Duration, Instant};
