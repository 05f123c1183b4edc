//! The pool of known DHT nodes, split into shards by address.
use std::collections::{BTreeSet, VecDeque};
use vstd::prelude::*;

use crate::addr::{IpAddress, NodeAddr};
use crate::rng::random_in_range;

verus! {

/// Number of shards of a `ShardedBloom`.
pub const BLOOM_SHARD_COUNT: usize = 32;

/// Number of shards per address family.
pub const QUEUE_SHARD_COUNT: usize = 16;

/// Number of shards in the pool: one IPv4 and one IPv6 shard per shard index.
pub const QUEUE_SLOT_COUNT: usize = 32;


#[verifier::external_type_specification]
#[verifier::external_body]
#[verifier::reject_recursive_types(T)]
pub struct ExBloom<T: ?Sized>(bloomfilter::Bloom<T>);

/// The items a bloom filter holds: those whose `k_num` bit positions
/// (hashed with the filter's sip keys) are all set in its bitmap, that is,
/// the items `check` answers `true` for. Besides the items recorded it
/// holds whatever items their bits happen to cover (false positives).
pub uninterp spec fn bloom_members(b: bloomfilter::Bloom<[u8; 20]>) -> Set<Seq<u8>>;

/// The number of bits of a bloom filter's bitmap, as it was made.
pub uninterp spec fn bloom_bitmap_bits(b: bloomfilter::Bloom<[u8; 20]>) -> nat;

/// `bloomfilter::Bloom::new(bitmap_size, items_count)`: a filter of
/// `bitmap_size` bytes (eight bits each), all bits clear, with a random seed
/// and at least one hash function, so no item has all its bits set. It
/// asserts that both sizes are positive and that the bit count fits a `u64`
/// and a `usize`, which `requires` asks. Which sip keys and how many hash
/// functions it picks is left unsaid.
#[verifier::external_body]
fn bloom_new(bitmap_size: usize, items_count: usize) -> (b: bloomfilter::Bloom<[u8; 20]>)
    requires
        bitmap_size > 0,
        items_count > 0,
        bitmap_size <= usize::MAX / 8,
    ensures
        bloom_bitmap_bits(b) == bitmap_size * 8,
        bloom_members(b) == Set::<Seq<u8>>::empty(),
{
    bloomfilter::Bloom::new(bitmap_size, items_count)
}

/// `bloomfilter::Bloom::check_and_set`: returns whether all the bits of
/// `item` were set already (whether the filter held it), then sets them.
/// Bits are only ever set, so every item held before is still held, and
/// `item` is held afterwards; which other items its bits complete is left
/// unsaid. It takes hashes modulo the bit count, so the filter must have
/// bits.
#[verifier::external_body]
fn bloom_check_and_set(b: &mut bloomfilter::Bloom<[u8; 20]>, item: &[u8; 20]) -> (found: bool)
    requires
        bloom_bitmap_bits(*old(b)) > 0,
    ensures
        bloom_bitmap_bits(*final(b)) == bloom_bitmap_bits(*old(b)),
        found == bloom_members(*old(b)).contains(item@),
        bloom_members(*old(b)).insert(item@).subset_of(bloom_members(*final(b))),
{
    b.check_and_set(item)
}

/// The shard of a `ShardedBloom` that an info hash goes to: its first two
/// bytes, little-endian, modulo 32.
pub open spec fn spec_hash_to_shard(hash: [u8; 20]) -> int {
    (((hash[0] as usize) | ((hash[1] as usize) << 8usize)) % 32) as int
}

/// A bloom filter of info hashes, split into 32 shards, with a count of the
/// hashes it reported as new.
pub struct ShardedBloom {
    shards: Vec<bloomfilter::Bloom<[u8; 20]>>,
    count: usize,
}

/// Items a bloom of `expected_items` items gives each shard: the items
/// divided by 32, rounded up.
pub fn items_per_shard(expected_items: usize) -> (n: usize)
    requires
        expected_items <= usize::MAX - 31,
    ensures
        n == (expected_items + 31) / 32,
{
    (expected_items + (BLOOM_SHARD_COUNT - 1)) / BLOOM_SHARD_COUNT
}

impl ShardedBloom {
    /// The items each shard holds (see `bloom_members`).
    pub closed spec fn members(&self) -> Seq<Set<Seq<u8>>> {
        Seq::new(self.shards@.len(), |s: int| bloom_members(self.shards@[s]))
    }

    /// How many `check_and_set` calls reported a new hash (wrapping).
    pub closed spec fn new_count(&self) -> usize {
        self.count
    }

    pub closed spec fn wf(&self) -> bool {
        &&& self.shards@.len() == BLOOM_SHARD_COUNT
        &&& forall|s: int| 0 <= s < BLOOM_SHARD_COUNT ==> #[trigger] bloom_bitmap_bits(self.shards@[s]) > 0
    }

    /// An empty bloom of 32 shards, each of `bitmap_size` bytes sized for
    /// `items_per_shard` items, with a zero count.
    pub fn with_sizes(bitmap_size: usize, items_per_shard: usize) -> (b: Self)
        requires
            bitmap_size > 0,
            items_per_shard > 0,
            bitmap_size <= usize::MAX / 8,
        ensures
            b.wf(),
            b.new_count() == 0,
            b.members() == Seq::new(32, |s: int| Set::<Seq<u8>>::empty()),
    {
        let mut shards: Vec<bloomfilter::Bloom<[u8; 20]>> = Vec::new();
        let mut i: usize = 0;
        while i < BLOOM_SHARD_COUNT
            invariant
                0 <= i <= BLOOM_SHARD_COUNT,
                shards@.len() == i,
                bitmap_size > 0,
                items_per_shard > 0,
                bitmap_size <= usize::MAX / 8,
                forall|s: int|
                    0 <= s < i ==> bloom_bitmap_bits(#[trigger] shards@[s]) > 0 && bloom_members(shards@[s])
                        == Set::<Seq<u8>>::empty(),
            decreases BLOOM_SHARD_COUNT - i,
        {
            shards.push(bloom_new(bitmap_size, items_per_shard));
            i = i + 1;
        }
        let b = ShardedBloom { shards, count: 0 };
        assert(b.members() =~= Seq::new(32, |s: int| Set::<Seq<u8>>::empty()));
        b
    }

    /// Records `hash` in its shard and returns whether the shard held it
    /// already; a hash reported new adds one (wrapping) to the count.
    pub fn check_and_set(&mut self, hash: &[u8; 20]) -> (present: bool)
        requires
            old(self).wf(),
        ensures
            final(self).wf(),
            present == old(self).members()[spec_hash_to_shard(*hash)].contains(hash@),
            members_after_check(old(self).members(), final(self).members(), *hash),
            final(self).new_count() == count_after(old(self).new_count(), present),
    {
        let shard_idx = self.hash_to_shard(hash);
        assert(bloom_bitmap_bits(self.shards@[shard_idx as int]) > 0);
        let present = bloom_check_and_set(&mut self.shards[shard_idx], hash);
        assert forall|s: int| 0 <= s < BLOOM_SHARD_COUNT implies #[trigger] bloom_bitmap_bits(self.shards@[s])
            > 0 by {
            if s != shard_idx as int {
                assert(self.shards@[s] == old(self).shards@[s]);
            }
        }
        if !present {
            self.count = self.count.wrapping_add(1);
        }
        assert forall|t: int| 0 <= t < BLOOM_SHARD_COUNT && t != shard_idx as int implies #[trigger] self.members()[t]
            == old(self).members()[t] by {
            assert(self.shards@[t] == old(self).shards@[t]);
        }
        present
    }

    /// The count of hashes reported new.
    pub fn number_of_bits(&self) -> (n: u64)
        ensures
            n == self.new_count(),
    {
        self.count as u64
    }

    /// The shard an info hash goes to.
    pub fn hash_to_shard(&self, hash: &[u8; 20]) -> (r: usize)
        ensures
            r == spec_hash_to_shard(*hash),
            r < BLOOM_SHARD_COUNT,
    {
        let idx = (hash[0] as usize) | ((hash[1] as usize) << 8usize);
        idx % BLOOM_SHARD_COUNT
    }
}

/// How a `check_and_set` of `hash` changes what the 32 shards hold: the
/// hash's shard keeps all it held and holds `hash` too; the others are
/// unchanged.
pub open spec fn members_after_check(before: Seq<Set<Seq<u8>>>, after: Seq<Set<Seq<u8>>>, hash: [u8; 20]) -> bool {
    let s = spec_hash_to_shard(hash);
    &&& before.len() == BLOOM_SHARD_COUNT
    &&& after.len() == BLOOM_SHARD_COUNT
    &&& before[s].insert(hash@).subset_of(after[s])
    &&& forall|t: int| 0 <= t < BLOOM_SHARD_COUNT && t != s ==> #[trigger] after[t] == before[t]
}

/// Along a run of `check_and_set` calls (`states[i + 1]` follows from
/// `states[i]` by checking `hashes[i]`), nothing a shard holds is ever
/// lost, and a hash checked once is held from then on, so every later
/// check of it answers present.
pub proof fn lemma_recorded_hash_stays(states: Seq<Seq<Set<Seq<u8>>>>, hashes: Seq<[u8; 20]>)
    requires
        states.len() == hashes.len() + 1,
        forall|i: int| 0 <= i < hashes.len() ==> members_after_check(#[trigger] states[i], states[i + 1], hashes[i]),
    ensures
        forall|i: int, j: int, t: int|
            0 <= i <= j < states.len() && 0 <= t < BLOOM_SHARD_COUNT ==> (#[trigger] states[i][t]).subset_of(
                #[trigger] states[j][t],
            ),
        forall|i: int, j: int|
            0 <= i < j < states.len() ==> (#[trigger] states[j])[spec_hash_to_shard(#[trigger] hashes[i])].contains(
                hashes[i]@,
            ),
{
    assert forall|i: int, j: int, t: int|
        0 <= i <= j < states.len() && 0 <= t < BLOOM_SHARD_COUNT implies (#[trigger] states[i][t]).subset_of(
        #[trigger] states[j][t],
    ) by {
        lemma_members_grow(states, hashes, i, j, t);
    }
    assert forall|i: int, j: int| 0 <= i < j < states.len() implies (#[trigger] states[j])[spec_hash_to_shard(
        #[trigger] hashes[i],
    )].contains(hashes[i]@) by {
        let s = spec_hash_to_shard(hashes[i]);
        assert(members_after_check(states[i], states[i + 1], hashes[i]));
        assert(0 <= s < 32);
        assert(states[i + 1][s].contains(hashes[i]@));
        lemma_members_grow(states, hashes, i + 1, j, s);
    }
}

proof fn lemma_members_grow(states: Seq<Seq<Set<Seq<u8>>>>, hashes: Seq<[u8; 20]>, i: int, j: int, t: int)
    requires
        states.len() == hashes.len() + 1,
        forall|k: int| 0 <= k < hashes.len() ==> members_after_check(#[trigger] states[k], states[k + 1], hashes[k]),
        0 <= i <= j < states.len(),
        0 <= t < BLOOM_SHARD_COUNT,
    ensures
        states[i][t].subset_of(states[j][t]),
    decreases j - i,
{
    if i < j {
        lemma_members_grow(states, hashes, i, j - 1, t);
        assert(members_after_check(states[j - 1], states[j], hashes[j - 1]));
        let s = spec_hash_to_shard(hashes[j - 1]);
        if t != s {
            assert(states[j][t] == states[j - 1][t]);
        } else {
            assert(states[j - 1][t].subset_of(states[j - 1][t].insert(hashes[j - 1]@)));
        }
    }
}

/// The count of new hashes after a `check_and_set` answered `present`:
/// one more (wrapping) when the hash was reported new.
pub open spec fn count_after(count: usize, present: bool) -> usize {
    if present {
        count
    } else {
        vstd::wrapping::usize_specs::wrapping_add(count, 1)
    }
}

/// How many of the answers reported a new hash.
pub open spec fn count_new(answers: Seq<bool>) -> nat
    decreases answers.len(),
{
    if answers.len() == 0 {
        0
    } else {
        count_new(answers.drop_last()) + if answers.last() {
            0nat
        } else {
            1nat
        }
    }
}

proof fn lemma_count_new_prefix(a: Seq<bool>, k: int)
    requires
        0 <= k <= a.len(),
    ensures
        count_new(a.take(k)) <= count_new(a),
    decreases a.len() - k,
{
    if k < a.len() {
        lemma_count_new_prefix(a, k + 1);
        assert(a.take(k + 1).drop_last() =~= a.take(k));
    } else {
        assert(a.take(k) =~= a);
    }
}

proof fn lemma_counts_upto(counts: Seq<usize>, answers: Seq<bool>, k: int)
    requires
        counts.len() == answers.len() + 1,
        counts[0] == 0,
        forall|i: int| 0 <= i < answers.len() ==> #[trigger] counts[i + 1] == count_after(counts[i], answers[i]),
        count_new(answers) <= usize::MAX,
        0 <= k <= answers.len(),
    ensures
        counts[k] == count_new(answers.take(k)),
    decreases k,
{
    if k == 0 {
        assert(answers.take(0) =~= Seq::<bool>::empty());
    } else {
        lemma_counts_upto(counts, answers, k - 1);
        lemma_count_new_prefix(answers, k);
        assert(answers.take(k).drop_last() =~= answers.take(k - 1));
        assert(counts[(k - 1) + 1] == count_after(counts[k - 1], answers[k - 1]));
    }
}

/// The count a bloom keeps, from zero through a run of `check_and_set`
/// answers, is the number of answers that reported a new hash, as long as
/// that number fits a `usize`; and it never decreases along the run.
pub proof fn lemma_count_is_new_hashes(counts: Seq<usize>, answers: Seq<bool>)
    requires
        counts.len() == answers.len() + 1,
        counts[0] == 0,
        forall|i: int| 0 <= i < answers.len() ==> #[trigger] counts[i + 1] == count_after(counts[i], answers[i]),
        count_new(answers) <= usize::MAX,
    ensures
        counts[answers.len() as int] == count_new(answers),
        forall|i: int, j: int| 0 <= i <= j < counts.len() ==> counts[i] <= counts[j],
{
    lemma_counts_upto(counts, answers, answers.len() as int);
    assert(answers.take(answers.len() as int) =~= answers);
    assert forall|i: int, j: int| 0 <= i <= j < counts.len() implies counts[i] <= counts[j] by {
        lemma_counts_upto(counts, answers, i);
        lemma_counts_upto(counts, answers, j);
        lemma_count_new_prefix(answers.take(j), i);
        assert(answers.take(j).take(i) =~= answers.take(i));
    }
}

/// A DHT node: its node id and its address.
#[derive(Debug)]
pub struct NodeTuple {
    pub id: Vec<u8>,
    pub addr: NodeAddr,
}

/// What a node is, as a plain value: its id and its address.
pub type NodeView = (Seq<u8>, NodeAddr);

impl View for NodeTuple {
    type V = NodeView;

    open spec fn view(&self) -> NodeView {
        (self.id@, self.addr)
    }
}

impl NodeTuple {
    /// A copy of the node.
    pub fn duplicate(&self) -> (r: NodeTuple)
        ensures
            r@ == self@,
    {
        let id = self.id.clone();
        proof {
            assert(id@ =~= self.id@);
        }
        NodeTuple { id, addr: self.addr }
    }
}

/// The views of a sequence of nodes.
pub open spec fn node_views(s: Seq<NodeTuple>) -> Seq<NodeView> {
    s.map_values(|n: NodeTuple| n@)
}

/// No two nodes of `s` share an address.
pub open spec fn addrs_distinct(s: Seq<NodeView>) -> bool {
    forall|i: int, j: int| 0 <= i < s.len() && 0 <= j < s.len() && i != j ==> s[i].1 != s[j].1
}

/// Some node of `s` has address `a`.
pub open spec fn contains_addr(s: Seq<NodeView>, a: NodeAddr) -> bool {
    exists|i: int| 0 <= i < s.len() && s[i].1 == a
}

/// The contents of a shard of capacity `cap` after `n` was pushed into it:
/// a known address changes nothing; otherwise `n` is appended, and when the
/// shard is full its oldest node leaves first. A shard of capacity 0 keeps
/// nothing.
pub open spec fn shard_push(s: Seq<NodeView>, cap: nat, n: NodeView) -> Seq<NodeView> {
    if contains_addr(s, n.1) {
        s
    } else if s.len() >= cap && s.len() > 0 {
        s.drop_first().push(n)
    } else if cap == 0 {
        s
    } else {
        s.push(n)
    }
}

/// A push into a shard with room for a node leaves a node with the pushed
/// address in it; every push keeps each address once and never grows a
/// shard past its capacity.
pub proof fn lemma_shard_push_laws(s: Seq<NodeView>, cap: nat, n: NodeView)
    requires
        addrs_distinct(s),
        s.len() <= cap,
    ensures
        cap > 0 ==> contains_addr(shard_push(s, cap, n), n.1),
        addrs_distinct(shard_push(s, cap, n)),
        shard_push(s, cap, n).len() <= cap,
{
    let r = shard_push(s, cap, n);
    if !contains_addr(s, n.1) && cap > 0 {
        assert(r[r.len() - 1] == n);
        assert forall|i: int, j: int| 0 <= i < r.len() && 0 <= j < r.len() && i != j implies r[i].1
            != r[j].1 by {
            if s.len() >= cap && s.len() > 0 {
                if i < r.len() - 1 && j < r.len() - 1 {
                    assert(r[i] == s[i + 1] && r[j] == s[j + 1]);
                } else if i < r.len() - 1 {
                    assert(r[i] == s[i + 1]);
                } else {
                    assert(r[j] == s[j + 1]);
                }
            } else {
                if i < r.len() - 1 && j < r.len() - 1 {
                    assert(r[i] == s[i] && r[j] == s[j]);
                } else if i < r.len() - 1 {
                    assert(r[i] == s[i]);
                } else {
                    assert(r[j] == s[j]);
                }
            }
        }
    }
}

/// What a push does to a shard, by case: a shard without room keeps
/// nothing; an address the shard knows leaves it as it was; a new address is appended last; when the shard is
/// full, its first (oldest) node leaves and every other node moves one
/// place up, so the shard keeps its length.
pub proof fn lemma_shard_push_cases(s: Seq<NodeView>, cap: nat, n: NodeView)
    requires
        s.len() <= cap,
    ensures
        ({
            let r = shard_push(s, cap, n);
            &&& cap == 0 ==> r.len() == 0
            &&& (exists|i: int| 0 <= i < s.len() && s[i].1 == n.1) ==> r == s
            &&& (forall|i: int| 0 <= i < s.len() ==> s[i].1 != n.1) && s.len() < cap ==> {
                &&& r.len() == s.len() + 1
                &&& forall|i: int| 0 <= i < s.len() ==> r[i] == s[i]
                &&& r[s.len() as int] == n
            }
            &&& (forall|i: int| 0 <= i < s.len() ==> s[i].1 != n.1) && s.len() == cap && cap > 0 ==> {
                &&& r.len() == s.len()
                &&& forall|i: int| 0 <= i < s.len() - 1 ==> r[i] == s[i + 1]
                &&& r[s.len() - 1] == n
            }
        }),
{
    if exists|i: int| 0 <= i < s.len() && s[i].1 == n.1 {
        let i = choose|i: int| 0 <= i < s.len() && s[i].1 == n.1;
        assert(contains_addr(s, n.1));
    }
}

pub open spec fn min_nat(a: nat, b: nat) -> nat {
    if a <= b {
        a
    } else {
        b
    }
}

/// An address as a key of the shard's index: the family, the octets in
/// two groups of eight (IPv4 octets padded with zeros) and the port.
pub type AddrKey = (u8, (u8, u8, u8, u8, u8, u8, u8, u8), (u8, u8, u8, u8, u8, u8, u8, u8), u16);

pub open spec fn addr_key(a: NodeAddr) -> AddrKey {
    match a.ip {
        IpAddress::V4(o) => (4u8, (o[0], o[1], o[2], o[3], 0u8, 0u8, 0u8, 0u8), (0u8, 0u8, 0u8, 0u8, 0u8, 0u8, 0u8, 0u8), a.port),
        IpAddress::V6(o) => (6u8, (o[0], o[1], o[2], o[3], o[4], o[5], o[6], o[7]), (o[8], o[9], o[10], o[11], o[12], o[13], o[14], o[15]), a.port),
    }
}

/// The key of an address (see `addr_key`).
pub fn addr_key_of(a: &NodeAddr) -> (k: AddrKey)
    ensures
        k == addr_key(*a),
{
    match a.ip {
        IpAddress::V4(o) => (4u8, (o[0], o[1], o[2], o[3], 0u8, 0u8, 0u8, 0u8), (0u8, 0u8, 0u8, 0u8, 0u8, 0u8, 0u8, 0u8), a.port),
        IpAddress::V6(o) => (6u8, (o[0], o[1], o[2], o[3], o[4], o[5], o[6], o[7]), (o[8], o[9], o[10], o[11], o[12], o[13], o[14], o[15]), a.port),
    }
}

/// Different addresses have different keys.
pub proof fn lemma_addr_key_injective(a: NodeAddr, b: NodeAddr)
    ensures
        addr_key(a) == addr_key(b) ==> a == b,
{
    if addr_key(a) == addr_key(b) {
        match (a.ip, b.ip) {
            (IpAddress::V4(x), IpAddress::V4(y)) => {
                assert(x@ =~= y@);
                assert(x == y);
            },
            (IpAddress::V6(x), IpAddress::V6(y)) => {
                assert(x@ =~= y@);
                assert(x == y);
            },
            _ => {},
        }
    }
}

/// The keys of the addresses of `s`.
pub open spec fn keys_of(s: Seq<NodeView>) -> Set<AddrKey> {
    Set::new(|k: AddrKey| exists|i: int| 0 <= i < s.len() && addr_key(s[i].1) == k)
}

/// Address keys obey the order laws that `BTreeSet`'s contracts ask for.
pub open spec fn addr_keys_ordered() -> bool {
    vstd::laws_cmp::obeys_cmp::<AddrKey>()
}

proof fn lemma_addr_keys_ordered()
    ensures
        addr_keys_ordered(),
{
    broadcast use vstd::laws_cmp::group_laws_cmp;
}

proof fn lemma_keys_contains(s: Seq<NodeView>, a: NodeAddr)
    ensures
        contains_addr(s, a) == keys_of(s).contains(addr_key(a)),
{
    if keys_of(s).contains(addr_key(a)) {
        let i = choose|i: int| 0 <= i < s.len() && addr_key(s[i].1) == addr_key(a);
        lemma_addr_key_injective(s[i].1, a);
    }
}

proof fn lemma_keys_push(s: Seq<NodeView>, n: NodeView)
    ensures
        keys_of(s.push(n)) == keys_of(s).insert(addr_key(n.1)),
{
    let t = s.push(n);
    assert forall|k: AddrKey| keys_of(t).contains(k) implies keys_of(s).insert(addr_key(n.1)).contains(k) by {
        let i = choose|i: int| 0 <= i < t.len() && addr_key(t[i].1) == k;
        if i < s.len() {
            assert(t[i] == s[i]);
        }
    }
    assert forall|k: AddrKey| keys_of(s).insert(addr_key(n.1)).contains(k) implies keys_of(t).contains(k) by {
        if k == addr_key(n.1) {
            assert(t[s.len() as int] == n);
        } else {
            let i = choose|i: int| 0 <= i < s.len() && addr_key(s[i].1) == k;
            assert(t[i] == s[i]);
        }
    }
    assert(keys_of(t) =~= keys_of(s).insert(addr_key(n.1)));
}

proof fn lemma_keys_drop_first(s: Seq<NodeView>)
    requires
        s.len() > 0,
        addrs_distinct(s),
    ensures
        keys_of(s.drop_first()) == keys_of(s).remove(addr_key(s[0].1)),
{
    let t = s.drop_first();
    assert forall|k: AddrKey| keys_of(t).contains(k) implies keys_of(s).remove(addr_key(s[0].1)).contains(k) by {
        let i = choose|i: int| 0 <= i < t.len() && addr_key(t[i].1) == k;
        assert(t[i] == s[i + 1]);
        lemma_addr_key_injective(s[i + 1].1, s[0].1);
    }
    assert forall|k: AddrKey| keys_of(s).remove(addr_key(s[0].1)).contains(k) implies keys_of(t).contains(k) by {
        let i = choose|i: int| 0 <= i < s.len() && addr_key(s[i].1) == k;
        assert(i != 0);
        assert(t[i - 1] == s[i]);
    }
    assert(keys_of(t) =~= keys_of(s).remove(addr_key(s[0].1)));
}

/// One shard of the pool: a FIFO of nodes with distinct addresses, with an
/// index of their address keys.
pub struct NodeQueueShard {
    queue: VecDeque<NodeTuple>,
    index: BTreeSet<AddrKey>,
    capacity: usize,
}

impl NodeQueueShard {
    /// The nodes of the shard, oldest first.
    pub closed spec fn contents(&self) -> Seq<NodeView> {
        node_views(self.queue@)
    }

    /// The capacity the shard was made with.
    pub closed spec fn cap(&self) -> nat {
        self.capacity as nat
    }

    pub closed spec fn wf(&self) -> bool {
        &&& addrs_distinct(self.contents())
        &&& self.queue@.len() <= self.capacity
        &&& self.index@ == keys_of(self.contents())
    }

    pub fn new(capacity: usize) -> (s: Self)
        ensures
            s.wf(),
            s.contents() == Seq::<NodeView>::empty(),
            s.cap() == capacity,
    {
        let s = NodeQueueShard { queue: VecDeque::new(), index: BTreeSet::new(), capacity };
        assert(s.contents() =~= Seq::<NodeView>::empty());
        assert(keys_of(s.contents()) =~= Set::<AddrKey>::empty());
        s
    }

    /// Appends `node` unless its address is already there; a full shard
    /// drops its oldest node first.
    pub fn push(&mut self, node: NodeTuple)
        requires
            old(self).wf(),
        ensures
            final(self).wf(),
            final(self).cap() == old(self).cap(),
            final(self).contents() == shard_push(old(self).contents(), old(self).cap(), node@),
    {
        broadcast use vstd::std_specs::btree::group_btree_axioms;
        proof {
            lemma_addr_keys_ordered();
            lemma_keys_contains(self.contents(), node.addr);
        }
        let key = addr_key_of(&node.addr);
        if self.index.contains(&key) {
            return;
        }
        let ghost before = self.contents();
        assert(!contains_addr(before, node.addr));
        if self.queue.len() >= self.capacity {
            if self.queue.len() == 0 {
                return;
            }
            let removed = self.queue.pop_front();
            match removed {
                Some(r) => {
                    proof {
                        assert(r@ == before[0]);
                        lemma_keys_drop_first(before);
                    }
                    let rk = addr_key_of(&r.addr);
                    self.index.remove(&rk);
                },
                None => {},
            }
        }
        let ghost mid = self.contents();
        proof {
            if before.len() >= self.capacity && before.len() > 0 {
                assert(mid =~= before.drop_first());
            } else {
                assert(mid =~= before);
            }
            assert(self.index@ == keys_of(mid));
            lemma_keys_push(mid, node@);
        }
        self.index.insert(key);
        self.queue.push_back(node);
        proof {
            assert(self.contents() =~= mid.push(node@));
            assert forall|a: int, b: int|
                0 <= a < self.contents().len() && 0 <= b < self.contents().len() && a != b
                implies self.contents()[a].1 != self.contents()[b].1 by {
                if a < mid.len() && b < mid.len() {
                    if mid =~= before.drop_first() {
                        assert(mid[a] == before[a + 1]);
                        assert(mid[b] == before[b + 1]);
                    }
                } else if a < mid.len() {
                    if mid =~= before.drop_first() {
                        assert(mid[a] == before[a + 1]);
                    }
                } else if b < mid.len() {
                    if mid =~= before.drop_first() {
                        assert(mid[b] == before[b + 1]);
                    }
                }
            }
        }
    }

    /// Removes and returns the `count` oldest nodes, or all of them if
    /// there are fewer.
    pub fn pop_batch(&mut self, count: usize) -> (r: Vec<NodeTuple>)
        requires
            old(self).wf(),
        ensures
            final(self).wf(),
            final(self).cap() == old(self).cap(),
            node_views(r@) == old(self).contents().take(
                min_nat(count as nat, old(self).contents().len()) as int,
            ),
            final(self).contents() == old(self).contents().skip(
                min_nat(count as nat, old(self).contents().len()) as int,
            ),
    {
        broadcast use vstd::std_specs::btree::group_btree_axioms;
        proof {
            lemma_addr_keys_ordered();
        }
        let actual_count = if count < self.queue.len() {
            count
        } else {
            self.queue.len()
        };
        let ghost start = self.contents();
        let mut nodes: Vec<NodeTuple> = Vec::new();
        let mut i: usize = 0;
        while i < actual_count
            invariant
                0 <= i <= actual_count,
                actual_count <= start.len(),
                actual_count == min_nat(count as nat, start.len()),
                node_views(nodes@) == start.take(i as int),
                self.contents() == start.skip(i as int),
                self.capacity == old(self).capacity,
                addrs_distinct(start),
                start.len() <= self.capacity,
                self.index@ == keys_of(self.contents()),
                addr_keys_ordered(),
            decreases actual_count - i,
        {
            let ghost cur = self.contents();
            let ghost cur_q = self.queue@;
            assert(cur.len() == cur_q.len());
            assert(cur_q.len() > 0);
            let ghost old_nodes = nodes@;
            let popped = self.queue.pop_front();
            match popped {
                Some(node) => {
                    proof {
                        assert(node@ == cur[0]);
                        assert(cur[0] == start[i as int]);
                        assert(addrs_distinct(cur)) by {
                            assert forall|a: int, b: int| 0 <= a < cur.len() && 0 <= b < cur.len() && a != b
                                implies cur[a].1 != cur[b].1 by {
                                assert(cur[a] == start[a + i]);
                                assert(cur[b] == start[b + i]);
                            }
                        }
                        lemma_keys_drop_first(cur);
                    }
                    let k = addr_key_of(&node.addr);
                    self.index.remove(&k);
                    nodes.push(node);
                    proof {
                        assert(nodes@ == old_nodes.push(node));
                        assert(node_views(nodes@) =~= node_views(old_nodes).push(node@));
                        assert(start.take(i as int).push(start[i as int]) =~= start.take(i + 1));
                        assert(self.queue@ == cur_q.subrange(1, cur_q.len() as int));
                        assert(self.contents() =~= cur.subrange(1, cur.len() as int));
                        assert(self.contents() =~= start.skip(i + 1));
                        assert(cur.drop_first() =~= self.contents());
                    }
                },
                None => {
                    proof {
                        assert(false);
                    }
                },
            }
            i = i + 1;
        }
        proof {
            let c = self.contents();
            assert forall|a: int, b: int| 0 <= a < c.len() && 0 <= b < c.len() && a != b
                implies c[a].1 != c[b].1 by {
                assert(c[a] == start[a + actual_count]);
                assert(c[b] == start[b + actual_count]);
            }
        }
        nodes
    }

    pub fn len(&self) -> (n: usize)
        ensures
            n == self.contents().len(),
    {
        self.queue.len()
    }

    pub fn is_empty(&self) -> (b: bool)
        ensures
            b == (self.contents().len() == 0),
    {
        self.queue.len() == 0
    }

    /// The node at position `i`, oldest first.
    pub fn node_at(&self, i: usize) -> (n: &NodeTuple)
        requires
            i < self.contents().len(),
        ensures
            n@ == self.contents()[i as int],
    {
        &self.queue[i]
    }
}

/// The shard index of an address: its last octet xor its port, modulo 16.
pub open spec fn spec_shard_index(addr: NodeAddr) -> int {
    match addr.ip {
        IpAddress::V4(o) => (((o[3] as usize) ^ (addr.port as usize)) % 16) as int,
        IpAddress::V6(o) => (((o[15] as usize) ^ (addr.port as usize)) % 16) as int,
    }
}

/// The slot of the pool that holds a node of this address: slot `2 * i`
/// is the IPv4 shard of index `i`, slot `2 * i + 1` the IPv6 one.
pub open spec fn slot_of(addr: NodeAddr) -> int {
    2 * spec_shard_index(addr) + if addr.ip is V6 {
        1int
    } else {
        0int
    }
}

/// Slot of the `k`-th shard of a family.
pub open spec fn family_slot(v6: bool, k: int) -> int {
    2 * k + if v6 {
        1int
    } else {
        0int
    }
}

/// Number of nodes in the first `n` slots of `q`.
pub open spec fn total_len(q: Seq<Seq<NodeView>>, n: int) -> nat
    decreases n,
{
    if n <= 0 {
        0
    } else {
        total_len(q, n - 1) + q[n - 1].len()
    }
}

/// The slots that `pop_batch` visits, in order: those of one family, or
/// the IPv4 and the IPv6 shard of each index in turn.
pub open spec fn visit_order(filter_ipv6: Option<bool>) -> Seq<int> {
    match filter_ipv6 {
        Some(v6) => Seq::new(16, |k: int| family_slot(v6, k)),
        None => Seq::new(32, |k: int| k),
    }
}

/// How many nodes `pop_batch` asks of each visited shard.
pub open spec fn per_visit(count: nat, filter_ipv6: Option<bool>) -> nat {
    let per = (count + 15) / 16;
    if filter_ipv6 is None {
        per / 2
    } else {
        per
    }
}

/// Nodes taken by `pop_batch` from the first `k` visited shards: a shard
/// gives `min(per, its length)` unless `count` nodes were taken already.
pub open spec fn taken_before(
    q: Seq<Seq<NodeView>>,
    order: Seq<int>,
    count: nat,
    per: nat,
    k: int,
) -> nat
    decreases k,
{
    if k <= 0 {
        0
    } else {
        let t = taken_before(q, order, count, per, k - 1);
        if t >= count {
            t
        } else {
            t + min_nat(per, q[order[k - 1]].len())
        }
    }
}

/// Nodes taken from the `k`-th visited shard.
pub open spec fn take_at(q: Seq<Seq<NodeView>>, order: Seq<int>, count: nat, per: nat, k: int) -> nat {
    (taken_before(q, order, count, per, k + 1) - taken_before(q, order, count, per, k)) as nat
}

/// The nodes returned from the first `k` visited shards, in order.
pub open spec fn popped(q: Seq<Seq<NodeView>>, order: Seq<int>, count: nat, per: nat, k: int) -> Seq<
    NodeView,
>
    decreases k,
{
    if k <= 0 {
        Seq::empty()
    } else {
        popped(q, order, count, per, k - 1) + q[order[k - 1]].take(
            take_at(q, order, count, per, k - 1) as int,
        )
    }
}

proof fn lemma_taken_stable(q: Seq<Seq<NodeView>>, order: Seq<int>, count: nat, per: nat, k: int, m: int)
    requires
        0 <= k <= m,
        taken_before(q, order, count, per, k) >= count,
    ensures
        taken_before(q, order, count, per, m) == taken_before(q, order, count, per, k),
        popped(q, order, count, per, m) == popped(q, order, count, per, k),
    decreases m - k,
{
    if m > k {
        lemma_taken_stable(q, order, count, per, k, m - 1);
        assert(take_at(q, order, count, per, m - 1) == 0);
        assert(q[order[m - 1]].take(0) =~= Seq::<NodeView>::empty());
        assert(popped(q, order, count, per, m) =~= popped(q, order, count, per, m - 1));
    }
}

proof fn lemma_slot_sum_bound(s: int, t: int, x: int, m: int)
    requires
        0 <= s < 32,
        0 <= t <= s * (m / 2048 + 1),
        0 <= x <= m / 2048 + 1,
        m >= 0xFFFF_FFFF,
    ensures
        t + x <= (s + 1) * (m / 2048 + 1),
        (s + 1) * (m / 2048 + 1) <= m,
{
    assert(t + x <= (s + 1) * (m / 2048 + 1)) by (nonlinear_arith)
        requires
            0 <= t <= s * (m / 2048 + 1),
            0 <= x <= m / 2048 + 1,
    ;
    assert((s + 1) * (m / 2048 + 1) <= 32 * (m / 2048 + 1)) by (nonlinear_arith)
        requires
            0 <= s < 32,
            m >= 0,
    ;
    assert(32 * (m / 2048) <= m / 64) by (nonlinear_arith)
        requires
            m >= 0,
    ;
}


/// Number of non-empty shards among the first `k` shards of a family.
pub open spec fn nonempty_before(q: Seq<Seq<NodeView>>, v6: bool, k: int) -> nat
    decreases k,
{
    if k <= 0 {
        0
    } else {
        nonempty_before(q, v6, k - 1) + if q[family_slot(v6, k - 1)].len() > 0 {
            1nat
        } else {
            0nat
        }
    }
}

/// Number of nodes in the first `k` shards of a family.
pub open spec fn family_len_before(q: Seq<Seq<NodeView>>, v6: bool, k: int) -> nat
    decreases k,
{
    if k <= 0 {
        0
    } else {
        family_len_before(q, v6, k - 1) + q[family_slot(v6, k - 1)].len()
    }
}

/// `n` is one of the nodes in the shards of a family.
pub open spec fn in_family(q: Seq<Seq<NodeView>>, v6: bool, n: NodeView) -> bool {
    exists|k: int, j: int|
        0 <= k < 16 && 0 <= j < q[family_slot(v6, k)].len() && #[trigger] q[family_slot(v6, k)][j]
            == n
}

/// How many nodes a random sample of `count` nodes of a family holds: for
/// up to 16 nodes, one from each non-empty shard; above, `count` nodes of
/// the family, or all of them.
pub open spec fn family_sample_len(q: Seq<Seq<NodeView>>, v6: bool, count: nat) -> nat {
    if count <= 16 {
        min_nat(count, nonempty_before(q, v6, 16))
    } else {
        min_nat(count, family_len_before(q, v6, 16))
    }
}

/// Length of `get_random_nodes(count, filter_ipv6)`; with no filter, half
/// of `count` (rounded down) goes to IPv4 and the rest to IPv6.
pub open spec fn sample_len(q: Seq<Seq<NodeView>>, count: nat, filter_ipv6: Option<bool>) -> nat {
    match filter_ipv6 {
        Some(v6) => family_sample_len(q, v6, count),
        None => family_sample_len(q, false, count / 2) + family_sample_len(
            q,
            true,
            (count - count / 2) as nat,
        ),
    }
}

/// `n` is a node of the families that the filter selects.
pub open spec fn in_filter(q: Seq<Seq<NodeView>>, filter_ipv6: Option<bool>, n: NodeView) -> bool {
    match filter_ipv6 {
        Some(v6) => in_family(q, v6, n),
        None => in_family(q, false, n) || in_family(q, true, n),
    }
}

proof fn lemma_nonempty_monotone(q: Seq<Seq<NodeView>>, v6: bool, k: int, m: int)
    requires
        0 <= k <= m,
    ensures
        nonempty_before(q, v6, k) <= nonempty_before(q, v6, m),
    decreases m - k,
{
    if m > k {
        lemma_nonempty_monotone(q, v6, k, m - 1);
    }
}

proof fn lemma_family_len_mono(q: Seq<Seq<NodeView>>, v6: bool, k: int, m: int)
    requires
        0 <= k <= m,
    ensures
        family_len_before(q, v6, k) <= family_len_before(q, v6, m),
    decreases m - k,
{
    if m > k {
        lemma_family_len_mono(q, v6, k, m - 1);
    }
}

proof fn lemma_family_len_bound(q: Seq<Seq<NodeView>>, v6: bool, k: int, b: int)
    requires
        0 <= k <= 16,
        q.len() == QUEUE_SLOT_COUNT,
        b >= 0,
        forall|s: int| 0 <= s < QUEUE_SLOT_COUNT ==> #[trigger] q[s].len() <= b,
    ensures
        family_len_before(q, v6, k) <= k * b,
    decreases k,
{
    if k > 0 {
        lemma_family_len_bound(q, v6, k - 1, b);
        assert(q[family_slot(v6, k - 1)].len() <= b);
        assert((k - 1) * b + b == k * b) by (nonlinear_arith);
    }
}

/// Position `(k, j)`, the `j`-th node of the family's `k`-th shard, lies
/// before position `(k2, i2)`.
pub open spec fn pos_before(p: (int, int), k: int, i: int) -> bool {
    p.0 < k || (p.0 == k && p.1 < i)
}

pub open spec fn pos_valid(q: Seq<Seq<NodeView>>, v6: bool, p: (int, int)) -> bool {
    0 <= p.0 < 16 && 0 <= p.1 < q[family_slot(v6, p.0)].len()
}


/// The pool, with slot capacities `caps`, after pushing `nodes` in order
/// (see `shard_push`).
pub open spec fn push_all(q: Seq<Seq<NodeView>>, caps: Seq<nat>, nodes: Seq<NodeView>) -> Seq<Seq<NodeView>>
    decreases nodes.len(),
{
    if nodes.len() == 0 {
        q
    } else {
        let q2 = push_all(q, caps, nodes.drop_last());
        let n = nodes.last();
        q2.update(slot_of(n.1), shard_push(q2[slot_of(n.1)], caps[slot_of(n.1)], n))
    }
}

proof fn lemma_total_len_bound(q: Seq<Seq<NodeView>>, caps: Seq<nat>, n: int)
    requires
        0 <= n <= 32,
        forall|s: int| 0 <= s < 32 ==> #[trigger] q[s].len() <= caps[s],
    ensures
        total_len(q, n) <= caps_total(caps, n),
    decreases n,
{
    if n > 0 {
        lemma_total_len_bound(q, caps, n - 1);
        assert(q[n - 1].len() <= caps[n - 1]);
    }
}

/// The capacity of slot `s` of a pool made with capacity `total`: the
/// capacity divided by 32, and one more for the first `total % 32` slots.
pub open spec fn slot_cap_of(total: nat, s: int) -> nat {
    total / 32 + if s < total % 32 {
        1nat
    } else {
        0nat
    }
}

/// The capacities of the first `n` slots, added up.
pub open spec fn caps_total(caps: Seq<nat>, n: int) -> nat
    decreases n,
{
    if n <= 0 {
        0
    } else {
        caps_total(caps, n - 1) + caps[n - 1]
    }
}

proof fn lemma_caps_total_of(total: nat, n: int)
    requires
        0 <= n <= 32,
    ensures
        caps_total(Seq::new(32, |s: int| slot_cap_of(total, s)), n) == n * (total / 32) + min_nat(
            n as nat,
            total % 32,
        ),
        n == 32 ==> caps_total(Seq::new(32, |s: int| slot_cap_of(total, s)), n) == total,
    decreases n,
{
    let caps = Seq::new(32, |s: int| slot_cap_of(total, s));
    let q = total / 32;
    let r = total % 32;
    if n > 0 {
        lemma_caps_total_of(total, n - 1);
        assert(caps[n - 1] == slot_cap_of(total, n - 1));
        assert((n - 1) * q + q == n * q) by (nonlinear_arith);
        if n - 1 < r {
            assert(min_nat(n as nat, r) == min_nat((n - 1) as nat, r) + 1);
        } else {
            assert(min_nat(n as nat, r) == min_nat((n - 1) as nat, r));
        }
        assert(caps_total(caps, n) == caps_total(caps, n - 1) + caps[n - 1]);
    } else {
        assert(n * q == 0) by (nonlinear_arith)
            requires
                n == 0,
        ;
    }
    if n == 32 {
        assert(total % 32 < 32);
        assert(32 * (total / 32) + total % 32 == total);
    }
}

proof fn lemma_caps_kept(pools: Seq<ShardedNodeQueue>, i: int)
    requires
        0 <= i < pools.len(),
        forall|k: int| 0 < k < pools.len() ==> (#[trigger] pools[k]).slot_caps() == pools[k - 1].slot_caps(),
    ensures
        pools[i].slot_caps() == pools[0].slot_caps(),
    decreases i,
{
    if i > 0 {
        lemma_caps_kept(pools, i - 1);
        assert(pools[i].slot_caps() == pools[i - 1].slot_caps());
    }
}

/// Every slot of the pool is empty (what `is_empty` answers).
pub open spec fn all_empty(q: Seq<Seq<NodeView>>) -> bool {
    forall|s: int| 0 <= s < QUEUE_SLOT_COUNT ==> #[trigger] q[s].len() == 0
}

/// Every slot a filter visits is empty (what `is_empty_for` answers).
pub open spec fn empty_for(q: Seq<Seq<NodeView>>, filter_ipv6: Option<bool>) -> bool {
    forall|k: int|
        0 <= k < visit_order(filter_ipv6).len() ==> #[trigger] q[visit_order(filter_ipv6)[k]].len() == 0
}

/// No node of the pool has an address of the family.
pub open spec fn no_node_of_family(q: Seq<Seq<NodeView>>, v6: bool) -> bool {
    forall|s: int, j: int|
        0 <= s < QUEUE_SLOT_COUNT && 0 <= j < q[s].len() ==> (#[trigger] q[s][j].1.ip is V6) != v6
}

proof fn lemma_total_len_zero(q: Seq<Seq<NodeView>>, n: int)
    requires
        0 <= n,
    ensures
        (total_len(q, n) == 0) == (forall|s: int| 0 <= s < n ==> #[trigger] q[s].len() == 0),
    decreases n,
{
    if n > 0 {
        lemma_total_len_zero(q, n - 1);
        if total_len(q, n) == 0 {
            assert forall|s: int| 0 <= s < n implies #[trigger] q[s].len() == 0 by {
                if s < n - 1 {
                    assert(total_len(q, n - 1) == 0);
                }
            }
        }
    }
}

/// The emptiness answers agree: the pool is empty when its length is 0,
/// when no family filter finds a node, and when both families are empty;
/// a family is empty exactly when no node has an address of it.
pub proof fn lemma_emptiness_agrees(pool: &ShardedNodeQueue)
    requires
        pool.wf(),
    ensures
        empty_for(pool@, None) == all_empty(pool@),
        all_empty(pool@) == (total_len(pool@, 32) == 0),
        all_empty(pool@) == (empty_for(pool@, Some(true)) && empty_for(pool@, Some(false))),
        empty_for(pool@, Some(true)) == no_node_of_family(pool@, true),
        empty_for(pool@, Some(false)) == no_node_of_family(pool@, false),
{
    pool.lemma_wf();
    let q = pool@;
    lemma_total_len_zero(q, 32);
    assert(empty_for(q, None) == all_empty(q)) by {
        assert(visit_order(None).len() == 32);
        if empty_for(q, None) {
            assert forall|s: int| 0 <= s < QUEUE_SLOT_COUNT implies #[trigger] q[s].len() == 0 by {
                assert(visit_order(None)[s] == s);
                assert(q[visit_order(None)[s]].len() == 0);
            }
        }
        if all_empty(q) {
            assert forall|k: int| 0 <= k < visit_order(None).len() implies #[trigger] q[visit_order(
                None,
            )[k]].len() == 0 by {
                assert(visit_order(None)[k] == k);
                assert(q[k].len() == 0);
            }
        }
    }
    assert forall|v6: bool| #[trigger] empty_for(q, Some(v6)) == no_node_of_family(q, v6) by {
        if empty_for(q, Some(v6)) {
            assert forall|s: int, j: int| 0 <= s < QUEUE_SLOT_COUNT && 0 <= j < q[s].len() implies (
            #[trigger] q[s][j].1.ip is V6) != v6 by {
                assert(slot_of(q[s][j].1) == s);
                if (q[s][j].1.ip is V6) == v6 {
                    let k = s / 2;
                    assert(visit_order(Some(v6))[k] == s);
                }
            }
        }
        if no_node_of_family(q, v6) {
            assert forall|k: int| 0 <= k < visit_order(Some(v6)).len() implies #[trigger] q[visit_order(
                Some(v6),
            )[k]].len() == 0 by {
                let s = visit_order(Some(v6))[k];
                assert(s == family_slot(v6, k));
                if q[s].len() > 0 {
                    assert(slot_of(q[s][0].1) == s);
                    assert((q[s][0].1.ip is V6) != v6);
                }
            }
        }
    }
    assert(empty_for(q, Some(true)) == no_node_of_family(q, true));
    assert(empty_for(q, Some(false)) == no_node_of_family(q, false));
    if empty_for(q, Some(true)) && empty_for(q, Some(false)) {
        assert forall|s: int| 0 <= s < QUEUE_SLOT_COUNT implies #[trigger] q[s].len() == 0 by {
            let k = s / 2;
            if s % 2 == 0 {
                assert(visit_order(Some(false))[k] == s);
            } else {
                assert(visit_order(Some(true))[k] == s);
            }
        }
    }
    if all_empty(q) {
        assert forall|k: int| 0 <= k < visit_order(Some(true)).len() implies #[trigger] q[visit_order(
            Some(true),
        )[k]].len() == 0 by {
            assert(0 <= visit_order(Some(true))[k] < 32);
        }
        assert forall|k: int| 0 <= k < visit_order(Some(false)).len() implies #[trigger] q[visit_order(
            Some(false),
        )[k]].len() == 0 by {
            assert(0 <= visit_order(Some(false))[k] < 32);
        }
    }
}

/// The pool of known nodes: 16 IPv4 and 16 IPv6 shards, each a FIFO of
/// bounded size; a node lives in the shard its address selects.
pub struct ShardedNodeQueue {
    shards: Vec<NodeQueueShard>,
}

impl View for ShardedNodeQueue {
    type V = Seq<Seq<NodeView>>;

    /// The contents of the 32 slots.
    closed spec fn view(&self) -> Seq<Seq<NodeView>> {
        Seq::new(self.shards@.len(), |s: int| self.shards@[s].contents())
    }
}

impl ShardedNodeQueue {
    /// The capacity of each of the 32 slots.
    pub closed spec fn slot_caps(&self) -> Seq<nat> {
        Seq::new(self.shards@.len(), |s: int| self.shards@[s].cap())
    }

    pub closed spec fn wf(&self) -> bool {
        &&& self.shards@.len() == QUEUE_SLOT_COUNT
        &&& forall|s: int| 0 <= s < QUEUE_SLOT_COUNT ==> #[trigger] self.shards@[s].wf()
        &&& forall|s: int|
            0 <= s < QUEUE_SLOT_COUNT ==> #[trigger] self.shards@[s].cap() <= usize::MAX / 2048
        &&& forall|s: int, j: int|
            0 <= s < QUEUE_SLOT_COUNT && 0 <= j < self.shards@[s].contents().len() ==> slot_of(
                #[trigger] self.shards@[s].contents()[j].1,
            ) == s
    }

    /// Facts that `wf` gives about the view.
    pub proof fn lemma_wf(&self)
        requires
            self.wf(),
        ensures
            self@.len() == QUEUE_SLOT_COUNT,
            self.slot_caps().len() == QUEUE_SLOT_COUNT,
            forall|s: int| 0 <= s < QUEUE_SLOT_COUNT ==> addrs_distinct(#[trigger] self@[s]),
            forall|s: int| 0 <= s < QUEUE_SLOT_COUNT ==> #[trigger] self@[s].len() <= self.slot_caps()[s],
            forall|s: int| 0 <= s < QUEUE_SLOT_COUNT ==> #[trigger] self.slot_caps()[s] <= usize::MAX / 2048,
            forall|s: int| 0 <= s < QUEUE_SLOT_COUNT ==> #[trigger] self@[s].len() <= usize::MAX / 2048,
            forall|s: int, j: int|
                0 <= s < QUEUE_SLOT_COUNT && 0 <= j < self@[s].len() ==> slot_of(
                    #[trigger] self@[s][j].1,
                ) == s,
    {
        assert forall|s: int| 0 <= s < QUEUE_SLOT_COUNT implies addrs_distinct(#[trigger] self@[s])
            && self@[s].len() <= self.slot_caps()[s] && self.slot_caps()[s] <= usize::MAX / 2048 by {
            assert(self.shards@[s].wf());
            assert(self@[s] == self.shards@[s].contents());
            assert(self.slot_caps()[s] == self.shards@[s].cap());
            assert(self.shards@[s].contents().len() == self.shards@[s].queue@.len());
        }
        assert forall|s: int| 0 <= s < QUEUE_SLOT_COUNT implies #[trigger] self@[s].len() <= usize::MAX / 2048 by {
            assert(self@[s].len() <= self.slot_caps()[s]);
        }
        assert forall|s: int, j: int|
            0 <= s < QUEUE_SLOT_COUNT && 0 <= j < self@[s].len() implies slot_of(
                #[trigger] self@[s][j].1,
            ) == s by {
            assert(self@[s] == self.shards@[s].contents());
        }
    }

    /// A pool of at most `total_capacity` nodes: the 32 slots (16 shards
    /// per family) share the capacity, `total_capacity / 32` each and one
    /// more for the first `total_capacity % 32` slots.
    pub fn new(total_capacity: usize) -> (q: Self)
        requires
            total_capacity <= usize::MAX / 256,
        ensures
            q.wf(),
            q@ == Seq::new(32, |s: int| Seq::<NodeView>::empty()),
            q.slot_caps() == Seq::new(32, |s: int| slot_cap_of(total_capacity as nat, s)),
            caps_total(q.slot_caps(), 32) == total_capacity,
    {
        let base = total_capacity / QUEUE_SLOT_COUNT;
        let extra = total_capacity % QUEUE_SLOT_COUNT;
        let mut shards: Vec<NodeQueueShard> = Vec::new();
        let mut s: usize = 0;
        while s < QUEUE_SLOT_COUNT
            invariant
                0 <= s <= QUEUE_SLOT_COUNT,
                shards@.len() == s,
                base == total_capacity / 32,
                extra == total_capacity % 32,
                base <= usize::MAX / 8192,
                forall|t: int|
                    0 <= t < s ==> (#[trigger] shards@[t]).wf() && shards@[t].cap()
                        == slot_cap_of(total_capacity as nat, t) && shards@[t].contents() == Seq::<
                        NodeView,
                    >::empty(),
            decreases QUEUE_SLOT_COUNT - s,
        {
            let cap = if s < extra {
                base + 1
            } else {
                base
            };
            shards.push(NodeQueueShard::new(cap));
            s = s + 1;
        }
        let q = ShardedNodeQueue { shards };
        assert(q@ =~= Seq::new(32, |s: int| Seq::<NodeView>::empty()));
        assert(q.slot_caps() =~= Seq::new(32, |s: int| slot_cap_of(total_capacity as nat, s)));
        proof {
            lemma_caps_total_of(total_capacity as nat, 32);
        }
        q
    }

    /// The pool never holds more nodes than its slots have room for. With
    /// `new` giving the slots capacities that add up to the capacity it was
    /// made with, and every operation keeping `slot_caps()`, the pool holds
    /// at most that capacity.
    pub proof fn lemma_len_within_capacity(&self)
        requires
            self.wf(),
        ensures
            total_len(self@, 32) <= caps_total(self.slot_caps(), 32),
    {
        self.lemma_wf();
        lemma_total_len_bound(self@, self.slot_caps(), 32);
    }

    /// No two nodes of the pool share an address: within a slot the shard
    /// keeps each address once, and an address selects a single slot.
    pub proof fn lemma_addresses_unique(&self)
        requires
            self.wf(),
        ensures
            forall|s1: int, j1: int, s2: int, j2: int|
                0 <= s1 < QUEUE_SLOT_COUNT && 0 <= s2 < QUEUE_SLOT_COUNT && 0 <= j1 < self@[s1].len() && 0
                    <= j2 < self@[s2].len() && (s1, j1) != (s2, j2) ==> (#[trigger] self@[s1][j1]).1 != (
                #[trigger] self@[s2][j2]).1,
    {
        self.lemma_wf();
        assert forall|s1: int, j1: int, s2: int, j2: int|
            0 <= s1 < QUEUE_SLOT_COUNT && 0 <= s2 < QUEUE_SLOT_COUNT && 0 <= j1 < self@[s1].len() && 0 <= j2
                < self@[s2].len() && (s1, j1) != (s2, j2) implies (#[trigger] self@[s1][j1]).1 != (
            #[trigger] self@[s2][j2]).1 by {
            if s1 == s2 {
                assert(addrs_distinct(self@[s1]));
            } else {
                assert(slot_of(self@[s1][j1].1) == s1);
                assert(slot_of(self@[s2][j2].1) == s2);
            }
        }
    }

    /// A pool made with capacity `total` and then changed by any run of
    /// calls (each `push`, `push_nodes` or `pop_batch` keeps `wf` and
    /// `slot_caps`; the samplers change nothing) holds at most `total`
    /// nodes at every step, no two of them with the same address.
    pub proof fn lemma_capacity_through_calls(pools: Seq<ShardedNodeQueue>, total: nat)
        requires
            pools.len() > 0,
            pools[0].slot_caps() == Seq::new(32, |s: int| slot_cap_of(total, s)),
            forall|i: int| 0 <= i < pools.len() ==> (#[trigger] pools[i]).wf(),
            forall|i: int| 0 < i < pools.len() ==> (#[trigger] pools[i]).slot_caps() == pools[i - 1].slot_caps(),
        ensures
            forall|i: int| 0 <= i < pools.len() ==> total_len((#[trigger] pools[i])@, 32) <= total,
            forall|i: int, s1: int, j1: int, s2: int, j2: int|
                0 <= i < pools.len() && 0 <= s1 < QUEUE_SLOT_COUNT && 0 <= s2 < QUEUE_SLOT_COUNT && 0 <= j1
                    < pools[i]@[s1].len() && 0 <= j2 < pools[i]@[s2].len() && (s1, j1) != (s2, j2)
                    ==> (#[trigger] pools[i]@[s1][j1]).1 != (#[trigger] pools[i]@[s2][j2]).1,
    {
        lemma_caps_total_of(total, 32);
        assert forall|i: int| 0 <= i < pools.len() implies total_len((#[trigger] pools[i])@, 32) <= total by {
            lemma_caps_kept(pools, i);
            pools[i].lemma_len_within_capacity();
        }
        assert forall|i: int, s1: int, j1: int, s2: int, j2: int|
            0 <= i < pools.len() && 0 <= s1 < QUEUE_SLOT_COUNT && 0 <= s2 < QUEUE_SLOT_COUNT && 0 <= j1
                < pools[i]@[s1].len() && 0 <= j2 < pools[i]@[s2].len() && (s1, j1) != (s2, j2)
                implies (#[trigger] pools[i]@[s1][j1]).1 != (#[trigger] pools[i]@[s2][j2]).1 by {
            pools[i].lemma_addresses_unique();
        }
    }

    /// The shard index of an address.
    pub fn addr_to_shard(&self, addr: &NodeAddr) -> (r: usize)
        ensures
            r == spec_shard_index(*addr),
            r < QUEUE_SHARD_COUNT,
    {
        let hash = match addr.ip {
            IpAddress::V4(octets) => (octets[3] as usize) ^ (addr.port as usize),
            IpAddress::V6(octets) => (octets[15] as usize) ^ (addr.port as usize),
        };
        hash % QUEUE_SHARD_COUNT
    }

    /// Adds a node to the shard its address selects (see `shard_push`).
    pub fn push(&mut self, node: NodeTuple)
        requires
            old(self).wf(),
        ensures
            final(self).wf(),
            final(self).slot_caps() == old(self).slot_caps(),
            final(self)@ == old(self)@.update(
                slot_of(node.addr),
                shard_push(old(self)@[slot_of(node.addr)], old(self).slot_caps()[slot_of(node.addr)], node@),
            ),
    {
        let shard_idx = self.addr_to_shard(&node.addr);
        let slot = if node.addr.is_ipv6() {
            2 * shard_idx + 1
        } else {
            2 * shard_idx
        };
        assert(slot == slot_of(node.addr));
        let ghost old_contents = self.shards@[slot as int].contents();
        let ghost cap = self.shards@[slot as int].cap();
        assert(self.shards@[slot as int].wf());
        self.shards[slot].push(node);
        proof {
            let new_contents = self.shards@[slot as int].contents();
            assert(new_contents == shard_push(old_contents, cap, node@));
            assert forall|j: int| 0 <= j < new_contents.len() implies slot_of(
                #[trigger] new_contents[j].1,
            ) == slot by {
                if !contains_addr(old_contents, node@.1) {
                    if old_contents.len() >= cap && old_contents.len() > 0 {
                        if j < new_contents.len() - 1 {
                            assert(new_contents[j] == old_contents[j + 1]);
                        }
                    } else {
                        if j < new_contents.len() - 1 {
                            assert(new_contents[j] == old_contents[j]);
                        }
                    }
                }
            }
            assert(self@ =~= old(self)@.update(slot as int, new_contents));
            assert forall|s: int| 0 <= s < QUEUE_SLOT_COUNT implies #[trigger] self.shards@[s].wf()
                && self.shards@[s].cap() == old(self).shards@[s].cap() by {
                if s != slot {
                    assert(self.shards@[s] == old(self).shards@[s]);
                }
            }
            assert(self.slot_caps() =~= old(self).slot_caps());
            assert forall|s: int, j: int|
                0 <= s < QUEUE_SLOT_COUNT && 0 <= j < self.shards@[s].contents().len()
                implies slot_of(#[trigger] self.shards@[s].contents()[j].1) == s by {
                if s != slot {
                    assert(self.shards@[s] == old(self).shards@[s]);
                }
            }
        }
    }

    /// Number of nodes in the pool.
    pub fn len(&self) -> (n: usize)
        requires
            self.wf(),
        ensures
            n == total_len(self@, 32),
    {
        proof {
            self.lemma_wf();
        }
        let mut total: usize = 0;
        let mut s: usize = 0;
        while s < QUEUE_SLOT_COUNT
            invariant
                0 <= s <= QUEUE_SLOT_COUNT,
                self.wf(),
                self@.len() == QUEUE_SLOT_COUNT,
                forall|t: int| 0 <= t < QUEUE_SLOT_COUNT ==> #[trigger] self@[t].len() <= usize::MAX / 2048,
                total == total_len(self@, s as int),
                total <= s * (usize::MAX / 2048 + 1),
            decreases QUEUE_SLOT_COUNT - s,
        {
            assert(self.shards@[s as int].contents() == self@[s as int]);
            proof {
                lemma_slot_sum_bound(s as int, total as int, self@[s as int].len() as int, usize::MAX as int);
            }
            total = total + self.shards[s].len();
            s = s + 1;
        }
        total
    }

    /// Pushes the nodes one after the other.
    pub fn push_nodes(&mut self, nodes: Vec<NodeTuple>)
        requires
            old(self).wf(),
        ensures
            final(self).wf(),
            final(self).slot_caps() == old(self).slot_caps(),
            final(self)@ == push_all(old(self)@, old(self).slot_caps(), node_views(nodes@)),
    {
        let ghost all = node_views(nodes@);
        let ghost cap = self.slot_caps();
        let mut rev: Vec<NodeTuple> = Vec::new();
        let mut rest = nodes;
        while rest.len() > 0
            invariant
                node_views(rest@) + node_views(rev@).reverse() == all,
            decreases rest@.len(),
        {
            let ghost r0 = rest@;
            let ghost v0 = rev@;
            match rest.pop() {
                Some(n) => {
                    rev.push(n);
                    proof {
                        assert(node_views(rest@) =~= node_views(r0).drop_last());
                        assert(node_views(rev@) =~= node_views(v0).push(n@));
                        assert(node_views(rev@).reverse() =~= seq![n@] + node_views(v0).reverse());
                        assert(node_views(r0) =~= node_views(rest@).push(n@));
                        assert(node_views(rest@) + node_views(rev@).reverse() =~= node_views(r0) + node_views(v0).reverse());
                    }
                },
                None => {},
            }
        }
        assert(node_views(rev@).reverse() =~= all);
        let ghost done_len: int = 0;
        while rev.len() > 0
            invariant
                self.wf(),
                self.slot_caps() == cap,
                0 <= done_len <= all.len(),
                node_views(rev@).reverse() == all.skip(done_len),
                self@ == push_all(old(self)@, cap, all.take(done_len)),
            decreases rev@.len(),
        {
            let ghost v0 = rev@;
            match rev.pop() {
                Some(n) => {
                    proof {
                        assert(node_views(v0).len() == v0.len());
                        assert(node_views(v0).reverse().len() == all.len() - done_len);
                        assert(done_len < all.len());
                        assert(node_views(v0).reverse()[0] == node_views(v0)[v0.len() - 1]);
                        assert(node_views(v0).reverse()[0] == n@);
                        assert(all.skip(done_len)[0] == all[done_len]);
                        assert(all.take(done_len + 1).drop_last() =~= all.take(done_len));
                        assert(all.take(done_len + 1).last() == all[done_len]);
                        assert(node_views(rev@) =~= node_views(v0).drop_last());
                        assert forall|t: int| 0 <= t < node_views(rev@).reverse().len() implies
                            node_views(rev@).reverse()[t] == all.skip(done_len + 1)[t] by {
                            assert(node_views(rev@).reverse()[t] == node_views(v0).reverse()[t + 1]);
                            assert(all.skip(done_len)[t + 1] == all.skip(done_len + 1)[t]);
                        }
                        assert(node_views(rev@).reverse() =~= all.skip(done_len + 1));
                    }
                    self.push(n);
                    proof {
                        done_len = done_len + 1;
                    }
                },
                None => {},
            }
        }
        assert(all.take(all.len() as int) =~= all);
    }

    /// Whether the pool holds no node.
    pub fn is_empty(&self) -> (b: bool)
        requires
            self.wf(),
        ensures
            b == all_empty(self@),
    {
        let b = self.is_empty_for(None);
        proof {
            assert forall|s: int| 0 <= s < QUEUE_SLOT_COUNT implies visit_order(None)[s] == s by {}
            if b {
                assert forall|s: int| 0 <= s < QUEUE_SLOT_COUNT implies #[trigger] self@[s].len() == 0 by {
                    assert(self@[visit_order(None)[s]].len() == 0);
                }
            } else {
                let k = choose|k: int| 0 <= k < 32 && !(self@[visit_order(None)[k]].len() == 0);
                assert(self@[k].len() != 0);
            }
        }
        b
    }

    /// Whether the shards of the family (`Some(true)`: IPv6, `Some(false)`:
    /// IPv4, `None`: both) hold no node.
    pub fn is_empty_for(&self, filter_ipv6: Option<bool>) -> (b: bool)
        requires
            self.wf(),
        ensures
            b == empty_for(self@, filter_ipv6),
    {
        let n: usize = match filter_ipv6 {
            Some(_) => QUEUE_SHARD_COUNT,
            None => QUEUE_SLOT_COUNT,
        };
        let mut k: usize = 0;
        while k < n
            invariant
                0 <= k <= n,
                n == visit_order(filter_ipv6).len(),
                self.wf(),
                forall|j: int|
                    0 <= j < k ==> #[trigger] self@[visit_order(filter_ipv6)[j]].len() == 0,
            decreases n - k,
        {
            let slot = match filter_ipv6 {
                Some(true) => 2 * k + 1,
                Some(false) => 2 * k,
                None => k,
            };
            assert(slot == visit_order(filter_ipv6)[k as int]);
            assert(self.shards@[slot as int].contents() == self@[slot as int]);
            if !self.shards[slot].is_empty() {
                return false;
            }
            k = k + 1;
        }
        true
    }

    /// Removes and returns up to about `count` nodes. Each visited shard
    /// (see `visit_order`) gives its oldest `per_visit(count)` nodes, until
    /// `count` nodes have been taken.
    pub fn pop_batch(&mut self, count: usize, filter_ipv6: Option<bool>) -> (r: Vec<NodeTuple>)
        requires
            old(self).wf(),
            count <= usize::MAX - 15,
        ensures
            final(self).wf(),
            final(self).slot_caps() == old(self).slot_caps(),
            node_views(r@) == popped(
                old(self)@,
                visit_order(filter_ipv6),
                count as nat,
                per_visit(count as nat, filter_ipv6),
                visit_order(filter_ipv6).len() as int,
            ),
            forall|k: int|
                0 <= k < visit_order(filter_ipv6).len() ==> #[trigger] final(self)@[visit_order(
                    filter_ipv6,
                )[k]] == old(self)@[visit_order(filter_ipv6)[k]].skip(
                    take_at(
                        old(self)@,
                        visit_order(filter_ipv6),
                        count as nat,
                        per_visit(count as nat, filter_ipv6),
                        k,
                    ) as int,
                ),
            forall|s: int|
                0 <= s < QUEUE_SLOT_COUNT && !visit_order(filter_ipv6).contains(s)
                    ==> #[trigger] final(self)@[s] == old(self)@[s],
    {
        let ghost q = old(self)@;
        let ghost order = visit_order(filter_ipv6);
        let ghost per_g = per_visit(count as nat, filter_ipv6);
        proof {
            old(self).lemma_wf();
        }
        let mut result: Vec<NodeTuple> = Vec::new();
        let per_shard = (count + (QUEUE_SHARD_COUNT - 1)) / QUEUE_SHARD_COUNT;
        let (n, per) = match filter_ipv6 {
            Some(_) => (QUEUE_SHARD_COUNT, per_shard),
            None => (QUEUE_SLOT_COUNT, per_shard / 2),
        };
        assert(per == per_g);
        let mut k: usize = 0;
        while k < n && result.len() < count
            invariant
                0 <= k <= n,
                n == order.len(),
                order == visit_order(filter_ipv6),
                per == per_g,
                q == old(self)@,
                q.len() == QUEUE_SLOT_COUNT,
                forall|s: int| 0 <= s < QUEUE_SLOT_COUNT ==> #[trigger] q[s].len() <= usize::MAX / 2048 + 1,
                self.wf(),
                self.slot_caps() == old(self).slot_caps(),
                node_views(result@) == popped(q, order, count as nat, per as nat, k as int),
                result@.len() == taken_before(q, order, count as nat, per as nat, k as int),
                result@.len() <= k * (usize::MAX / 2048 + 1),
                forall|j: int| 0 <= j < k ==> #[trigger] self@[order[j]] == q[order[j]].skip(
                    take_at(q, order, count as nat, per as nat, j) as int),
                forall|s: int|
                    0 <= s < QUEUE_SLOT_COUNT && !order.take(k as int).contains(s) ==> #[trigger] self@[s]
                        == q[s],
            decreases n - k,
        {
            let slot = match filter_ipv6 {
                Some(true) => 2 * k + 1,
                Some(false) => 2 * k,
                None => k,
            };
            assert(slot == order[k as int]);
            assert(!order.take(k as int).contains(slot as int)) by {
                if order.take(k as int).contains(slot as int) {
                    let j = choose|j: int| 0 <= j < k && order.take(k as int)[j] == slot;
                    assert(order[j] == order[k as int]);
                }
            }
            let ghost before_shard = self@[slot as int];
            assert(before_shard == q[slot as int]);
            assert(self.shards@[slot as int].contents() == before_shard);
            assert(self.shards@[slot as int].wf());
            let ghost old_shards = self.shards@;
            let ghost old_view = self@;
            let ghost old_result = result@;
            let mut nodes = self.shards[slot].pop_batch(per);
            let ghost taken = min_nat(per as nat, before_shard.len());
            assert(taken == take_at(q, order, count as nat, per as nat, k as int));
            proof {
                lemma_slot_sum_bound(k as int, result@.len() as int, taken as int, usize::MAX as int);
            }
            result.append(&mut nodes);
            proof {
                assert(node_views(result@) =~= node_views(old_result) + before_shard.take(taken as int));
                assert(self.shards@ == old_shards.update(slot as int, self.shards@[slot as int]));
                assert(self@ =~= old_view.update(slot as int, before_shard.skip(taken as int)));
                assert forall|s: int| 0 <= s < QUEUE_SLOT_COUNT implies #[trigger] self.shards@[s].wf()
                    && self.shards@[s].cap() == old_shards[s].cap() by {
                    if s != slot {
                        assert(self.shards@[s] == old_shards[s]);
                    }
                }
                assert(self.slot_caps() =~= old(self).slot_caps());
                assert forall|s: int, j: int|
                    0 <= s < QUEUE_SLOT_COUNT && 0 <= j < self.shards@[s].contents().len()
                    implies slot_of(#[trigger] self.shards@[s].contents()[j].1) == s by {
                    if s != slot {
                        assert(self.shards@[s] == old_shards[s]);
                    } else {
                        assert(self.shards@[s].contents()[j] == before_shard[j + taken]);
                    }
                }
                assert forall|j: int| 0 <= j < k + 1 implies #[trigger] self@[order[j]] == q[order[j]].skip(
                    take_at(q, order, count as nat, per as nat, j) as int) by {
                    if j < k {
                        assert(order[j] != slot) by {
                            assert(order.take(k as int)[j] == order[j]);
                        }
                        assert(self@[order[j]] == old_view[order[j]]);
                    }
                }
                assert forall|s: int|
                    0 <= s < QUEUE_SLOT_COUNT && !order.take(k + 1).contains(s) implies #[trigger] self@[s]
                        == q[s] by {
                    assert(s != slot) by {
                        assert(order.take(k + 1)[k as int] == slot);
                    }
                    assert(self@[s] == old_view[s]);
                    assert(!order.take(k as int).contains(s)) by {
                        if order.take(k as int).contains(s) {
                            let j = choose|j: int| 0 <= j < k && order.take(k as int)[j] == s;
                            assert(order.take(k + 1)[j] == s);
                        }
                    }
                }
            }
            k = k + 1;
        }
        proof {
            if k < n {
                lemma_taken_stable(q, order, count as nat, per as nat, k as int, n as int);
                assert forall|j: int| k <= j < n implies take_at(q, order, count as nat, per as nat, j) == 0 by {
                    lemma_taken_stable(q, order, count as nat, per as nat, k as int, j);
                    lemma_taken_stable(q, order, count as nat, per as nat, k as int, j + 1);
                }
            }
            assert forall|kk: int| 0 <= kk < n implies #[trigger] self@[order[kk]] == q[order[kk]].skip(
                take_at(q, order, count as nat, per as nat, kk) as int) by {
                if kk >= k {
                    assert(!order.take(k as int).contains(order[kk])) by {
                        if order.take(k as int).contains(order[kk]) {
                            let j = choose|j: int| 0 <= j < k && order.take(k as int)[j] == order[kk];
                            assert(order[j] == order[kk]);
                        }
                    }
                    assert(q[order[kk]].skip(0) =~= q[order[kk]]);
                }
            }
            assert forall|s: int|
                0 <= s < QUEUE_SLOT_COUNT && !order.contains(s) implies #[trigger] self@[s] == q[s] by {
                assert(!order.take(k as int).contains(s)) by {
                    if order.take(k as int).contains(s) {
                        let j = choose|j: int| 0 <= j < k && order.take(k as int)[j] == s;
                        assert(order[j] == s);
                    }
                }
            }
        }
        result
    }

    /// Two distinct positions of a family hold nodes of distinct addresses.
    proof fn lemma_positions_distinct(&self, v6: bool, a: (int, int), b: (int, int))
        requires
            self.wf(),
            pos_valid(self@, v6, a),
            pos_valid(self@, v6, b),
            a != b,
        ensures
            self@[family_slot(v6, a.0)][a.1].1 != self@[family_slot(v6, b.0)][b.1].1,
    {
        self.lemma_wf();
        let sa = family_slot(v6, a.0);
        let sb = family_slot(v6, b.0);
        assert(slot_of(self@[sa][a.1].1) == sa);
        assert(slot_of(self@[sb][b.1].1) == sb);
        if a.0 == b.0 {
            assert(addrs_distinct(self@[sa]));
        }
    }

    /// A node of the IPv4 family has an IPv4 address, one of the IPv6
    /// family an IPv6 address.
    proof fn lemma_family_kind(&self, v6: bool, n: NodeView)
        requires
            self.wf(),
            in_family(self@, v6, n),
        ensures
            (n.1.ip is V6) == v6,
    {
        self.lemma_wf();
        let (k, j) = choose|k: int, j: int|
            0 <= k < 16 && 0 <= j < self@[family_slot(v6, k)].len() && #[trigger] self@[family_slot(
                v6,
                k,
            )][j] == n;
        assert(slot_of(self@[family_slot(v6, k)][j].1) == family_slot(v6, k));
    }

    /// Random nodes of one family (`v6`): for up to 16 nodes, one random
    /// node of each non-empty shard in turn; above, a uniform sample drawn
    /// by reservoir sampling over all the family's nodes.
    pub fn get_random_nodes_from_shards(&self, v6: bool, count: usize) -> (r: Vec<NodeTuple>)
        requires
            self.wf(),
        ensures
            r@.len() == family_sample_len(self@, v6, count as nat),
            forall|i: int| 0 <= i < r@.len() ==> in_family(self@, v6, #[trigger] r@[i]@),
            addrs_distinct(node_views(r@)),
            count <= 16 ==> forall|i: int, j: int|
                0 <= i < j < r@.len() ==> slot_of((#[trigger] r@[i])@.1) < slot_of((#[trigger] r@[j])@.1),
    {
        let ghost q = self@;
        proof {
            self.lemma_wf();
            lemma_family_len_bound(q, v6, 16, usize::MAX / 2048 + 1);
            lemma_nonempty_monotone(q, v6, 0, 16);
            assert(16 * (usize::MAX / 2048 + 1) <= usize::MAX) by (nonlinear_arith)
                requires
                    usize::MAX >= 0xFFFF_FFFF,
            ;
        }
        let mut result: Vec<NodeTuple> = Vec::new();
        let ghost mut pos: Seq<(int, int)> = Seq::empty();
        if count <= 16 {
            let per_shard = (count + QUEUE_SHARD_COUNT - 1) / QUEUE_SHARD_COUNT;
            assert(per_shard <= 1);
            let mut k: usize = 0;
            while k < QUEUE_SHARD_COUNT && result.len() < count
                invariant
                    0 <= k <= 16,
                    q == self@,
                    self.wf(),
                    count <= 16,
                    per_shard <= 1,
                    per_shard == (count + 15) / 16,
                    result@.len() == nonempty_before(q, v6, k as int),
                    result@.len() <= count,
                    pos.len() == result@.len(),
                    forall|t: int|
                        0 <= t < pos.len() ==> pos_valid(q, v6, #[trigger] pos[t]) && pos[t].0 < k
                            && result@[t]@ == q[family_slot(v6, pos[t].0)][pos[t].1],
                    forall|t1: int, t2: int|
                        0 <= t1 < t2 < pos.len() ==> (#[trigger] pos[t1]).0 < (#[trigger] pos[t2]).0,
                decreases 16 - k,
            {
                let slot = if v6 {
                    2 * k + 1
                } else {
                    2 * k
                };
                assert(slot == family_slot(v6, k as int));
                let shard = &self.shards[slot];
                assert(shard.contents() == q[slot as int]);
                let shard_len = shard.len();
                if shard_len != 0 {
                    let room = count - result.len();
                    let mut to_take = if per_shard < shard_len {
                        per_shard
                    } else {
                        shard_len
                    };
                    if room < to_take {
                        to_take = room;
                    }
                    assert(to_take == 1);
                    let mut indices: Vec<usize> = Vec::new();
                    let mut i: usize = 0;
                    while i < shard_len
                        invariant
                            0 <= i <= shard_len,
                            indices@.len() == i,
                            forall|t: int| 0 <= t < i ==> #[trigger] indices@[t] < shard_len,
                        decreases shard_len - i,
                    {
                        indices.push(i);
                        i = i + 1;
                    }
                    let mut i: usize = 0;
                    while i < to_take
                        invariant
                            0 <= i <= to_take,
                            to_take <= shard_len,
                            indices@.len() == shard_len,
                            forall|t: int| 0 <= t < shard_len ==> #[trigger] indices@[t] < shard_len,
                        decreases to_take - i,
                    {
                        let j = random_in_range(i, shard_len);
                        let a = indices[i];
                        let b = indices[j];
                        indices.set(i, b);
                        indices.set(j, a);
                        i = i + 1;
                    }
                    let mut i: usize = 0;
                    while i < to_take
                        invariant
                            0 <= i <= to_take,
                            to_take == 1,
                            0 < shard_len,
                            indices@.len() == shard_len,
                            q.len() == QUEUE_SLOT_COUNT,
                            slot < QUEUE_SLOT_COUNT,
                            shard_len == q[slot as int].len(),
                            shard.contents() == q[slot as int],
                            slot == family_slot(v6, k as int),
                            forall|t: int| 0 <= t < shard_len ==> #[trigger] indices@[t] < shard_len,
                            result@.len() == nonempty_before(q, v6, k as int) + i,
                            pos.len() == result@.len(),
                            0 <= k < 16,
                            forall|t: int|
                                0 <= t < pos.len() ==> pos_valid(q, v6, #[trigger] pos[t]) && (pos[t].0
                                    < k || (pos[t].0 == k && i > 0 && t == pos.len() - 1))
                                    && result@[t]@ == q[family_slot(v6, pos[t].0)][pos[t].1],
                            forall|t1: int, t2: int|
                                0 <= t1 < t2 < pos.len() ==> (#[trigger] pos[t1]).0 < (
                                #[trigger] pos[t2]).0,
                        decreases to_take - i,
                    {
                        let idx = indices[i];
                        let node = shard.node_at(idx).duplicate();
                        proof {
                            pos = pos.push((k as int, idx as int));
                        }
                        result.push(node);
                        i = i + 1;
                    }
                }
                k = k + 1;
            }
            proof {
                lemma_nonempty_monotone(q, v6, k as int, 16);
                assert forall|t1: int, t2: int|
                    0 <= t1 < result@.len() && 0 <= t2 < result@.len() && t1 != t2
                    implies node_views(result@)[t1].1 != node_views(result@)[t2].1 by {
                    if t1 < t2 {
                        assert(pos[t1].0 < pos[t2].0);
                    } else {
                        assert(pos[t2].0 < pos[t1].0);
                    }
                    self.lemma_positions_distinct(v6, pos[t1], pos[t2]);
                }
                assert forall|t: int| 0 <= t < result@.len() implies in_family(q, v6, #[trigger] result@[t]@) by {
                    assert(pos_valid(q, v6, pos[t]));
                    assert(q[family_slot(v6, pos[t].0)][pos[t].1] == result@[t]@);
                }
                assert forall|t1: int, t2: int| 0 <= t1 < t2 < result@.len() implies slot_of(
                    (#[trigger] result@[t1])@.1,
                ) < slot_of((#[trigger] result@[t2])@.1) by {
                    assert(pos[t1].0 < pos[t2].0);
                    assert(pos_valid(q, v6, pos[t1]) && pos_valid(q, v6, pos[t2]));
                    assert(result@[t1]@ == q[family_slot(v6, pos[t1].0)][pos[t1].1]);
                    assert(result@[t2]@ == q[family_slot(v6, pos[t2].0)][pos[t2].1]);
                }
            }
            result
        } else {
            let mut seen: usize = 0;
            let mut k: usize = 0;
            while k < QUEUE_SHARD_COUNT
                invariant
                    0 <= k <= 16,
                    q == self@,
                    self.wf(),
                    q.len() == QUEUE_SLOT_COUNT,
                    forall|s: int| 0 <= s < QUEUE_SLOT_COUNT ==> #[trigger] q[s].len() <= usize::MAX / 2048 + 1,
                    family_len_before(q, v6, 16) <= usize::MAX,
                    seen == family_len_before(q, v6, k as int),
                    result@.len() == min_nat(count as nat, seen as nat),
                    pos.len() == result@.len(),
                    forall|t: int|
                        0 <= t < pos.len() ==> pos_valid(q, v6, #[trigger] pos[t]) && pos_before(
                            pos[t],
                            k as int,
                            0,
                        ) && result@[t]@ == q[family_slot(v6, pos[t].0)][pos[t].1],
                    forall|t1: int, t2: int| 0 <= t1 < pos.len() && 0 <= t2 < pos.len() && t1 != t2
                        ==> #[trigger] pos[t1] != #[trigger] pos[t2],
                decreases 16 - k,
            {
                let slot = if v6 {
                    2 * k + 1
                } else {
                    2 * k
                };
                assert(slot == family_slot(v6, k as int));
                let shard = &self.shards[slot];
                assert(shard.contents() == q[slot as int]);
                let shard_len = shard.len();
                proof {
                    lemma_family_len_mono(q, v6, k as int + 1, 16);
                }
                let mut i: usize = 0;
                while i < shard_len
                    invariant
                        0 <= i <= shard_len,
                        0 <= k < 16,
                        shard_len == q[slot as int].len(),
                        shard.contents() == q[slot as int],
                        slot == family_slot(v6, k as int),
                        family_len_before(q, v6, k as int) + shard_len <= usize::MAX,
                        seen == family_len_before(q, v6, k as int) + i,
                        result@.len() == min_nat(count as nat, seen as nat),
                        pos.len() == result@.len(),
                        forall|t: int|
                            0 <= t < pos.len() ==> pos_valid(q, v6, #[trigger] pos[t]) && pos_before(
                                pos[t],
                                k as int,
                                i as int,
                            ) && result@[t]@ == q[family_slot(v6, pos[t].0)][pos[t].1],
                        forall|t1: int, t2: int| 0 <= t1 < pos.len() && 0 <= t2 < pos.len() && t1 != t2
                            ==> #[trigger] pos[t1] != #[trigger] pos[t2],
                    decreases shard_len - i,
                {
                    seen = seen + 1;
                    if result.len() < count {
                        let node = shard.node_at(i).duplicate();
                        proof {
                            pos = pos.push((k as int, i as int));
                        }
                        result.push(node);
                    } else {
                        let j = random_in_range(0, seen);
                        if j < count {
                            let node = shard.node_at(i).duplicate();
                            proof {
                                pos = pos.update(j as int, (k as int, i as int));
                            }
                            result.set(j, node);
                        }
                    }
                    i = i + 1;
                }
                k = k + 1;
            }
            proof {
                assert forall|t1: int, t2: int|
                    0 <= t1 < result@.len() && 0 <= t2 < result@.len() && t1 != t2
                    implies node_views(result@)[t1].1 != node_views(result@)[t2].1 by {
                    self.lemma_positions_distinct(v6, pos[t1], pos[t2]);
                }
                assert forall|t: int| 0 <= t < result@.len() implies in_family(q, v6, #[trigger] result@[t]@) by {
                    assert(pos_valid(q, v6, pos[t]));
                    assert(q[family_slot(v6, pos[t].0)][pos[t].1] == result@[t]@);
                }
            }
            result
        }
    }

    /// Random nodes of the families the filter selects (see
    /// `get_random_nodes_from_shards`); with no filter, `count / 2` IPv4
    /// nodes are asked for and the rest from IPv6.
    pub fn get_random_nodes(&self, count: usize, filter_ipv6: Option<bool>) -> (r: Vec<NodeTuple>)
        requires
            self.wf(),
        ensures
            r@.len() == sample_len(self@, count as nat, filter_ipv6),
            forall|i: int| 0 <= i < r@.len() ==> in_filter(self@, filter_ipv6, #[trigger] r@[i]@),
            addrs_distinct(node_views(r@)),
            filter_ipv6 is Some && count <= 16 ==> forall|i: int, j: int|
                0 <= i < j < r@.len() ==> slot_of((#[trigger] r@[i])@.1) < slot_of((#[trigger] r@[j])@.1),
    {
        match filter_ipv6 {
            Some(true) => self.get_random_nodes_from_shards(true, count),
            Some(false) => self.get_random_nodes_from_shards(false, count),
            None => {
                let count_v4 = count / 2;
                let count_v6 = count - count_v4;
                let mut result = self.get_random_nodes_from_shards(false, count_v4);
                let ghost a = result@;
                let mut more = self.get_random_nodes_from_shards(true, count_v6);
                let ghost b = more@;
                result.append(&mut more);
                proof {
                    assert(result@ == a + b);
                    assert forall|t1: int, t2: int|
                        0 <= t1 < result@.len() && 0 <= t2 < result@.len() && t1 != t2
                        implies node_views(result@)[t1].1 != node_views(result@)[t2].1 by {
                        if t1 < a.len() && t2 < a.len() {
                            assert(node_views(a)[t1] == node_views(result@)[t1]);
                            assert(node_views(a)[t2] == node_views(result@)[t2]);
                        } else if t1 >= a.len() && t2 >= a.len() {
                            assert(node_views(b)[t1 - a.len()] == node_views(result@)[t1]);
                            assert(node_views(b)[t2 - a.len()] == node_views(result@)[t2]);
                        } else if t1 < a.len() {
                            assert(in_family(self@, false, a[t1]@));
                            assert(in_family(self@, true, b[t2 - a.len()]@));
                            self.lemma_family_kind(false, a[t1]@);
                            self.lemma_family_kind(true, b[t2 - a.len()]@);
                        } else {
                            assert(in_family(self@, false, a[t2]@));
                            assert(in_family(self@, true, b[t1 - a.len()]@));
                            self.lemma_family_kind(false, a[t2]@);
                            self.lemma_family_kind(true, b[t1 - a.len()]@);
                        }
                    }
                    assert forall|i: int| 0 <= i < result@.len() implies in_filter(
                        self@,
                        filter_ipv6,
                        #[trigger] result@[i]@,
                    ) by {
                        if i < a.len() {
                            assert(in_family(self@, false, a[i]@));
                        } else {
                            assert(in_family(self@, true, b[i - a.len()]@));
                        }
                    }
                }
                result
            },
        }
    }
}

} // verus!
