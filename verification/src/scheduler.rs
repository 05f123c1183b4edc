//! The metadata scheduler's bookkeeping: its counters, the turning of an
//! announced hash back into bytes, and the torrent description it hands to
//! the user.
use vstd::prelude::*;
use vstd::string::StringExecFns;

use crate::server::{hex_decode, hex_decode_spec};
use crate::types::{FileInfo, TorrentInfo};

verus! {

/// What the bounded task queue answered when a hash was offered to it.
#[derive(Debug, Clone, Copy, PartialEq, Eq, Structural)]
pub enum TrySendOutcome {
    /// The hash was queued.
    Sent,
    /// The queue was full: the hash is dropped.
    Full,
    /// The workers are gone: the scheduler stops.
    Closed,
}

/// The scheduler's counters: hashes received, dropped for a full queue and
/// dispatched to a worker, and the number waiting in the queue. Each counts
/// as an atomic counter does, wrapping around.
#[derive(Debug, Clone, Copy)]
pub struct SchedulerStats {
    pub received: u64,
    pub dropped: u64,
    pub dispatched: u64,
    pub queue_len: usize,
}

/// `a + 1`, wrapping around at the top of `u64`.
pub open spec fn inc64(a: u64) -> u64 {
    if a == u64::MAX {
        0
    } else {
        (a + 1) as u64
    }
}

/// `a + 1`, wrapping around at the top of `usize`.
pub open spec fn inc_usize(a: usize) -> usize {
    if a == usize::MAX {
        0
    } else {
        (a + 1) as usize
    }
}

/// `a - 1`, wrapping around at zero.
pub open spec fn dec_usize(a: usize) -> usize {
    if a == 0 {
        usize::MAX
    } else {
        (a - 1) as usize
    }
}

impl SchedulerStats {
    /// The counters after a hash arrived and the queue answered `outcome`.
    pub open spec fn after_hash(self, outcome: TrySendOutcome) -> SchedulerStats {
        let received = inc64(self.received);
        match outcome {
            TrySendOutcome::Sent => SchedulerStats {
                received,
                queue_len: inc_usize(self.queue_len),
                ..self
            },
            TrySendOutcome::Full => SchedulerStats { received, dropped: inc64(self.dropped), ..self },
            TrySendOutcome::Closed => SchedulerStats { received, ..self },
        }
    }

    /// The counters after a worker took a hash from the queue.
    pub open spec fn after_dequeue(self) -> SchedulerStats {
        SchedulerStats {
            queue_len: dec_usize(self.queue_len),
            dispatched: inc64(self.dispatched),
            ..self
        }
    }

    /// Every hash received has been dropped, is waiting or was dispatched.
    pub open spec fn balanced(self) -> bool {
        self.received as int == self.dropped as int + self.dispatched as int + self.queue_len as int
    }

    /// All counters at zero.
    pub fn new() -> (s: Self)
        ensures
            s.received == 0,
            s.dropped == 0,
            s.dispatched == 0,
            s.queue_len == 0,
            s.balanced(),
    {
        SchedulerStats { received: 0, dropped: 0, dispatched: 0, queue_len: 0 }
    }

    /// Counts a hash that arrived and what the queue answered; returns
    /// whether the scheduler goes on (not when the workers are gone).
    pub fn on_hash(&mut self, outcome: TrySendOutcome) -> (go_on: bool)
        ensures
            *final(self) == old(self).after_hash(outcome),
            go_on == (outcome != TrySendOutcome::Closed),
    {
        self.received = self.received.wrapping_add(1);
        match outcome {
            TrySendOutcome::Sent => {
                self.queue_len = self.queue_len.wrapping_add(1);
                true
            },
            TrySendOutcome::Full => {
                self.dropped = self.dropped.wrapping_add(1);
                true
            },
            TrySendOutcome::Closed => false,
        }
    }

    /// Counts a hash a worker took from the queue.
    pub fn on_dequeue(&mut self)
        ensures
            *final(self) == old(self).after_dequeue(),
    {
        self.queue_len = self.queue_len.wrapping_sub(1);
        self.dispatched = self.dispatched.wrapping_add(1);
    }
}

/// A queued or dropped hash keeps the counters balanced, as long as no
/// counter wraps.
pub proof fn lemma_hash_keeps_balance(s: SchedulerStats, outcome: TrySendOutcome)
    requires
        s.balanced(),
        outcome != TrySendOutcome::Closed,
        s.received < u64::MAX,
        s.queue_len < usize::MAX,
    ensures
        s.after_hash(outcome).balanced(),
{
}

/// A worker taking a waiting hash keeps the counters balanced.
pub proof fn lemma_dequeue_keeps_balance(s: SchedulerStats)
    requires
        s.balanced(),
        s.queue_len > 0,
    ensures
        s.after_dequeue().balanced(),
{
}

/// The 20 bytes an info hash in hex stands for: `None` unless the text
/// is hex of exactly 20 bytes.
pub open spec fn info_hash_bytes_spec(hex: Seq<u8>) -> Option<Seq<u8>> {
    match hex_decode_spec(hex) {
        Some(b) => if b.len() == 20 {
            Some(b)
        } else {
            None
        },
        None => None,
    }
}

/// The info hash a hex string names, as the fetcher takes it.
pub fn info_hash_bytes(info_hash: &str) -> (r: Option<[u8; 20]>)
    ensures
        match r {
            Some(a) => info_hash_bytes_spec(vstd::utf8::encode_utf8(info_hash@)) == Some(a@),
            None => info_hash_bytes_spec(vstd::utf8::encode_utf8(info_hash@)) is None,
        },
{
    match hex_decode(info_hash.as_bytes()) {
        Some(bytes) => {
            if bytes.len() != 20 {
                return None;
            }
            let mut arr = [0u8; 20];
            let mut i: usize = 0;
            while i < 20
                invariant
                    0 <= i <= 20,
                    bytes@.len() == 20,
                    forall|j: int| 0 <= j < i ==> arr@[j] == bytes@[j],
                decreases 20 - i,
            {
                arr[i] = bytes[i];
                i = i + 1;
            }
            assert(arr@ =~= bytes@);
            Some(arr)
        },
        None => None,
    }
}

/// The magnet link of an info hash.
pub open spec fn magnet_link_spec(info_hash: Seq<char>) -> Seq<char> {
    "magnet:?xt=urn:btih:"@ + info_hash
}

/// The description of a fetched torrent: its hash, magnet link, name,
/// size and files, the peer it came from, no piece length, and the time it
/// was found.
pub fn torrent_info_from(
    info_hash: String,
    name: String,
    total_size: u64,
    files: Vec<FileInfo>,
    peer: String,
    timestamp: u64,
) -> (t: TorrentInfo)
    ensures
        t.info_hash@ == info_hash@,
        t.magnet_link@ == magnet_link_spec(info_hash@),
        t.name@ == name@,
        t.total_size == total_size,
        t.files@ == files@,
        t.piece_length == 0,
        t.peers@.len() == 1,
        t.peers@[0]@ == peer@,
        t.timestamp == timestamp,
{
    let magnet_link = String::from_str("magnet:?xt=urn:btih:").concat(info_hash.as_str());
    let mut peers: Vec<String> = Vec::new();
    peers.push(peer);
    TorrentInfo {
        info_hash,
        magnet_link,
        name,
        total_size,
        files,
        piece_length: 0,
        peers,
        timestamp,
    }
}

} // verus!
