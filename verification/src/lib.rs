//! Verified core of a BitTorrent DHT crawler: the node pool, the KRPC
//! message logic, the ut_metadata exchange, the metadata scheduler's
//! bookkeeping and the torrent info parsing.
use vstd::prelude::*;

pub mod addr;
pub mod bencode;
pub mod bscan;
pub mod compact;
pub mod error;
pub mod metadata;
pub mod prelude;
pub mod protocol;
mod rng;
pub mod scheduler;
pub mod server;
pub mod sharded;
pub mod types;

pub use addr::{IpAddress, NodeAddr};
pub use error::{DHTError, Result};
pub use server::{DhtCore, HashDiscovered};
pub use sharded::{NodeTuple, ShardedBloom, ShardedNodeQueue};
pub use types::{DHTOptions, FileInfo, NetMode, TorrentInfo};

verus! {

} // verus!
