//! The crawler's KRPC logic: routing messages, answering queries, reading
//! the nodes of responses, picking up announced info hashes, and the
//! decisions of the crawl loop and of the packet dispatcher.
use vstd::prelude::*;

use crate::addr::{IpAddress, NodeAddr};
use crate::bencode::{bencode, lemma_view_parts, spec_bencode_encode, str_eq, BValue, BView, dict_view};
use crate::compact::{encode_compact_nodes, encode_family, process_compact_nodes, process_compact_nodes_v6, decode_v4_nodes, decode_v6_nodes};
use crate::protocol::{DhtArgs, DhtMessage, DhtResponse};
use crate::rng::random_byte;
use crate::sharded::{
    in_filter, node_views, push_all, sample_len, addrs_distinct, NodeTuple, NodeView,
    ShardedNodeQueue,
};
use crate::types::NetMode;

verus! {

broadcast use vstd::array::group_array_axioms;

// ---------------------------------------------------------------------------
// Node ids
// ---------------------------------------------------------------------------

pub open spec fn min_int(a: int, b: int) -> int {
    if a <= b {
        a
    } else {
        b
    }
}

/// A 20-byte id "near" `remote`: its first `min(len, 6)` bytes, then the
/// bytes of `local` from that index on, up to 20; random bytes fill the
/// rest when `local` is shorter.
pub open spec fn neighbor_ok(id: Seq<u8>, remote: Seq<u8>, local: Seq<u8>) -> bool {
    let p = min_int(remote.len() as int, 6);
    &&& id.len() == 20
    &&& id.take(p) == remote.take(p)
    &&& forall|i: int| p <= i < min_int(20, local.len() as int) ==> #[trigger] id[i] == local[i]
}

/// The id to show a node: near the node's own id (see `neighbor_ok`).
pub fn generate_neighbor_target(remote_id: &[u8], local_id: &[u8]) -> (id: Vec<u8>)
    ensures
        neighbor_ok(id@, remote_id@, local_id@),
{
    let mut id: Vec<u8> = Vec::new();
    let prefix_len = if remote_id.len() < 6 {
        remote_id.len()
    } else {
        6
    };
    let mut i: usize = 0;
    while i < prefix_len
        invariant
            0 <= i <= prefix_len,
            prefix_len <= remote_id@.len(),
            prefix_len <= 6,
            id@ == remote_id@.take(i as int),
        decreases prefix_len - i,
    {
        id.push(remote_id[i]);
        assert(id@ =~= remote_id@.take(i + 1));
        i = i + 1;
    }
    let mut j: usize = prefix_len;
    while j < 20 && j < local_id.len()
        invariant
            prefix_len <= j <= 20,
            prefix_len <= 6,
            id@.len() == j,
            id@.take(prefix_len as int) == remote_id@.take(prefix_len as int),
            forall|k: int| prefix_len <= k < j ==> #[trigger] id@[k] == local_id@[k],
        decreases 20 - j,
    {
        let ghost before = id@;
        id.push(local_id[j]);
        assert(id@.take(prefix_len as int) =~= before.take(prefix_len as int));
        j = j + 1;
    }
    while id.len() < 20
        invariant
            id@.len() <= 20,
            prefix_len <= 6,
            id@.len() >= prefix_len,
            id@.take(prefix_len as int) == remote_id@.take(prefix_len as int),
            min_int(20, local_id@.len() as int) <= id@.len(),
            forall|k: int| prefix_len <= k < min_int(20, local_id@.len() as int) ==> #[trigger] id@[k]
                == local_id@[k],
        decreases 20 - id@.len(),
    {
        let ghost before = id@;
        id.push(random_byte());
        assert(id@.take(prefix_len as int) =~= before.take(prefix_len as int));
        assert forall|k: int| prefix_len <= k < min_int(20, local_id@.len() as int) implies #[trigger] id@[k]
            == local_id@[k] by {
            assert(id@[k] == before[k]);
        }
    }
    id
}

/// Twenty random bytes: a fresh node id.
pub fn generate_random_id() -> (id: Vec<u8>)
    ensures
        id@.len() == 20,
{
    let mut id: Vec<u8> = Vec::new();
    while id.len() < 20
        invariant
            id@.len() <= 20,
        decreases 20 - id@.len(),
    {
        id.push(random_byte());
    }
    id
}

// ---------------------------------------------------------------------------
// Tokens
// ---------------------------------------------------------------------------

/// `ahash::AHasher::default()` fed the IP octets and then the secret (each
/// hashed as a byte slice), its 64-bit result in little-endian bytes. The
/// hasher's keys are drawn from the operating system once per process, so
/// the value is left unsaid: no more than its length is stated.
#[verifier::external_body]
fn ahash_token(ip_octets: &[u8], secret: &[u8]) -> (t: Vec<u8>)
    ensures
        t@.len() == 8,
{
    let mut hasher = ahash::AHasher::default();
    std::hash::Hash::hash(ip_octets, &mut hasher);
    std::hash::Hash::hash(secret, &mut hasher);
    std::hash::Hasher::finish(&hasher).to_le_bytes().to_vec()
}

/// Whether a token received equals the one expected: it must have 8 bytes.
pub fn token_matches(token: &[u8], expected: &[u8]) -> (r: bool)
    ensures
        r == (token@.len() == 8 && token@ == expected@),
{
    if token.len() != 8 {
        return false;
    }
    crate::bencode::bytes_eq(token, expected)
}

// ---------------------------------------------------------------------------
// Hex
// ---------------------------------------------------------------------------

pub open spec fn hex_digit_lower(n: nat) -> char {
    if n < 10 {
        ((48 + n) as u8) as char
    } else {
        ((87 + n) as u8) as char
    }
}

/// Lower-case hex: two digits per byte, high nibble first.
pub open spec fn hex_lower(b: Seq<u8>) -> Seq<char>
    decreases b.len(),
{
    if b.len() == 0 {
        Seq::empty()
    } else {
        hex_lower(b.drop_last()) + seq![
            hex_digit_lower((b.last() / 16) as nat),
            hex_digit_lower((b.last() % 16) as nat),
        ]
    }
}

/// The value of a hex digit, either case.
pub open spec fn hex_value(c: u8) -> Option<nat> {
    if 48 <= c <= 57 {
        Some((c - 48) as nat)
    } else if 97 <= c <= 102 {
        Some((c - 87) as nat)
    } else if 65 <= c <= 70 {
        Some((c - 55) as nat)
    } else {
        None
    }
}

/// The bytes a hex string stands for: `None` for an odd length or a
/// character that is no hex digit.
pub open spec fn hex_decode_spec(b: Seq<u8>) -> Option<Seq<u8>>
    decreases b.len(),
{
    if b.len() % 2 != 0 {
        None
    } else if b.len() == 0 {
        Some(Seq::empty())
    } else {
        match (hex_decode_spec(b.take(b.len() - 2)), hex_value(b[b.len() - 2]), hex_value(b[b.len() - 1])) {
            (Some(p), Some(h), Some(l)) => Some(p.push((h * 16 + l) as u8)),
            _ => None,
        }
    }
}

/// The bytes of a text of ASCII characters, one per character.
pub open spec fn ascii_bytes(c: Seq<char>) -> Seq<u8> {
    Seq::new(c.len(), |i: int| c[i] as u8)
}

proof fn lemma_hex_lower_shape(b: Seq<u8>)
    ensures
        hex_lower(b).len() == 2 * b.len(),
        vstd::utf8::is_ascii_chars(hex_lower(b)),
    decreases b.len(),
{
    if b.len() > 0 {
        lemma_hex_lower_shape(b.drop_last());
        let h = hex_lower(b.drop_last());
        let t = seq![
            hex_digit_lower((b.last() / 16) as nat),
            hex_digit_lower((b.last() % 16) as nat),
        ];
        assert(hex_lower(b) == h + t);
        assert forall|i: int| 0 <= i < hex_lower(b).len() implies '\0' <= #[trigger] hex_lower(b)[i]
            <= '\u{7f}' by {
            if i >= h.len() {
                assert(hex_lower(b)[i] == t[i - h.len()]);
            } else {
                assert(hex_lower(b)[i] == h[i]);
            }
        }
    }
}

proof fn lemma_hex_decode_ascii(b: Seq<u8>)
    ensures
        hex_decode_spec(ascii_bytes(hex_lower(b))) == Some(b),
    decreases b.len(),
{
    lemma_hex_lower_shape(b);
    let a = ascii_bytes(hex_lower(b));
    if b.len() == 0 {
        assert(a.len() == 0);
    } else {
        let p = b.drop_last();
        let x = b.last();
        lemma_hex_decode_ascii(p);
        lemma_hex_lower_shape(p);
        let h = hex_lower(p);
        let d1 = hex_digit_lower((x / 16) as nat);
        let d2 = hex_digit_lower((x % 16) as nat);
        assert(hex_lower(b) == h + seq![d1, d2]);
        assert(a.take(a.len() - 2) =~= ascii_bytes(h));
        assert(a[a.len() - 2] == d1 as u8);
        assert(a[a.len() - 1] == d2 as u8);
        assert(hex_value(d1 as u8) == Some((x / 16) as nat));
        assert(hex_value(d2 as u8) == Some((x % 16) as nat));
        assert(a.len() % 2 == 0);
        assert(((x / 16) * 16 + x % 16) as u8 == x);
        assert(p.push(x) =~= b);
    }
}

/// The lower-case hex of any bytes, taken as UTF-8 text, decodes back to
/// those bytes.
pub proof fn lemma_hex_roundtrip(b: Seq<u8>)
    ensures
        hex_decode_spec(vstd::utf8::encode_utf8(hex_lower(b))) == Some(b),
{
    lemma_hex_lower_shape(b);
    vstd::utf8::is_ascii_chars_encode_utf8(hex_lower(b));
    assert(vstd::utf8::encode_utf8(hex_lower(b)) =~= ascii_bytes(hex_lower(b)));
    lemma_hex_decode_ascii(b);
}

/// `hex::encode`: the bytes in lower-case hex.
#[verifier::external_body]
pub(crate) fn hex_encode(data: &[u8]) -> (s: String)
    ensures
        s@ == hex_lower(data@),
{
    hex::encode(data)
}

/// `hex::decode`: the bytes of an even-length string of hex digits of
/// either case.
#[verifier::external_body]
pub(crate) fn hex_decode(data: &[u8]) -> (r: Option<Vec<u8>>)
    ensures
        match r {
            Some(v) => hex_decode_spec(data@) == Some(v@),
            None => hex_decode_spec(data@) is None,
        },
{
    hex::decode(data).ok()
}

// ---------------------------------------------------------------------------
// Messages
// ---------------------------------------------------------------------------

pub open spec fn key_t() -> Seq<u8> {
    seq![116u8]
}

pub open spec fn key_y() -> Seq<u8> {
    seq![121u8]
}

pub open spec fn key_q() -> Seq<u8> {
    seq![113u8]
}

pub open spec fn key_a() -> Seq<u8> {
    seq![97u8]
}

pub open spec fn key_r() -> Seq<u8> {
    seq![114u8]
}

pub open spec fn key_id() -> Seq<u8> {
    seq![105u8, 100u8]
}

pub open spec fn key_target() -> Seq<u8> {
    seq![116u8, 97u8, 114u8, 103u8, 101u8, 116u8]
}

pub open spec fn key_token() -> Seq<u8> {
    seq![116u8, 111u8, 107u8, 101u8, 110u8]
}

pub open spec fn key_nodes() -> Seq<u8> {
    seq![110u8, 111u8, 100u8, 101u8, 115u8]
}

pub open spec fn key_nodes6() -> Seq<u8> {
    seq![110u8, 111u8, 100u8, 101u8, 115u8, 54u8]
}

pub open spec fn find_node_name() -> Seq<u8> {
    seq![102u8, 105u8, 110u8, 100u8, 95u8, 110u8, 111u8, 100u8, 101u8]
}

/// A `find_node` query, transaction id `[0, 1]`.
pub open spec fn find_node_view(target: Seq<u8>, sender_id: Seq<u8>) -> BView {
    BView::Dict(
        seq![
            (key_t(), BView::Bytes(seq![0u8, 1u8])),
            (key_y(), BView::Bytes(key_q())),
            (key_q(), BView::Bytes(find_node_name())),
            (key_a(), BView::Dict(seq![(key_id(), BView::Bytes(sender_id)), (key_target(), BView::Bytes(target))])),
        ],
    )
}

/// A reply: transaction id, type `r`, and the id, the token and, where
/// given, a `nodes` or `nodes6` entry.
pub open spec fn reply_view(tid: Seq<u8>, id: Seq<u8>, token: Seq<u8>, nodes: Option<(Seq<u8>, Seq<u8>)>) -> BView {
    let base = seq![(key_id(), BView::Bytes(id)), (key_token(), BView::Bytes(token))];
    let r = match nodes {
        Some((k, d)) => base.push((k, BView::Bytes(d))),
        None => base,
    };
    BView::Dict(seq![(key_t(), BView::Bytes(tid)), (key_y(), BView::Bytes(key_r())), (key_r(), BView::Dict(r))])
}

fn bytes_value(b: Vec<u8>) -> (v: BValue)
    ensures
        v@ == BView::Bytes(b@),
{
    BValue::Bytes(b)
}

fn dict_value(entries: Vec<(Vec<u8>, BValue)>) -> (v: BValue)
    ensures
        v@ == BView::Dict(dict_view(entries@)),
{
    let v = BValue::Dict(entries);
    proof {
        lemma_view_parts(v);
    }
    v
}

fn key(bytes: &[u8]) -> (k: Vec<u8>)
    ensures
        k@ == bytes@,
{
    let mut k: Vec<u8> = Vec::new();
    let mut i: usize = 0;
    while i < bytes.len()
        invariant
            0 <= i <= bytes@.len(),
            k@ == bytes@.take(i as int),
        decreases bytes@.len() - i,
    {
        k.push(bytes[i]);
        assert(k@ =~= bytes@.take(i + 1));
        i = i + 1;
    }
    assert(bytes@.take(bytes@.len() as int) =~= bytes@);
    k
}

/// The bytes of a `find_node` query for `target` sent as `sender_id`.
pub fn find_node_message(target: &[u8], sender_id: &[u8]) -> (r: Option<Vec<u8>>)
    ensures
        match r {
            Some(b) => spec_bencode_encode(find_node_view(target@, sender_id@)) == Some(b@),
            None => spec_bencode_encode(find_node_view(target@, sender_id@)) is None,
        },
{
    let k_id: [u8; 2] = [105, 100];
    let k_target: [u8; 6] = [116, 97, 114, 103, 101, 116];
    let k_t: [u8; 1] = [116];
    let k_y: [u8; 1] = [121];
    let k_q: [u8; 1] = [113];
    let k_a: [u8; 1] = [97];
    let tid: [u8; 2] = [0, 1];
    let name: [u8; 9] = [102, 105, 110, 100, 95, 110, 111, 100, 101];
    assert(k_id@ =~= key_id());
    assert(k_target@ =~= key_target());
    assert(k_t@ =~= key_t());
    assert(k_y@ =~= key_y());
    assert(k_q@ =~= key_q());
    assert(k_a@ =~= key_a());
    assert(tid@ =~= seq![0u8, 1u8]);
    assert(name@ =~= find_node_name());
    let mut args: Vec<(Vec<u8>, BValue)> = Vec::new();
    args.push((key(&k_id), bytes_value(key(sender_id))));
    args.push((key(&k_target), bytes_value(key(target))));
    let ghost args_view = seq![(key_id(), BView::Bytes(sender_id@)), (key_target(), BView::Bytes(target@))];
    assert(dict_view(args@) =~= args_view);
    let a = dict_value(args);
    let mut msg: Vec<(Vec<u8>, BValue)> = Vec::new();
    msg.push((key(&k_t), bytes_value(key(&tid))));
    msg.push((key(&k_y), bytes_value(key(&k_q))));
    msg.push((key(&k_q), bytes_value(key(&name))));
    msg.push((key(&k_a), a));
    let v = dict_value(msg);
    assert(dict_view(msg@) =~= seq![
        (key_t(), BView::Bytes(seq![0u8, 1u8])),
        (key_y(), BView::Bytes(key_q())),
        (key_q(), BView::Bytes(find_node_name())),
        (key_a(), BView::Dict(args_view)),
    ]);
    assert(v@ == find_node_view(target@, sender_id@));
    bencode(&v)
}

/// The `nodes` (false) or `nodes6` (true) entry of a reply.
pub open spec fn entry_of(nodes: Option<(bool, Vec<u8>)>) -> Option<(Seq<u8>, Seq<u8>)> {
    match nodes {
        Some((v6, d)) => Some((if v6 { key_nodes6() } else { key_nodes() }, d@)),
        None => None,
    }
}

/// The bytes of a reply (see `reply_view`).
pub fn reply_message(tid: &[u8], id: &[u8], token: &[u8], nodes: Option<(bool, Vec<u8>)>) -> (r: Option<Vec<u8>>)
    ensures
        match r {
            Some(b) => spec_bencode_encode(reply_view(tid@, id@, token@, entry_of(nodes))) == Some(b@),
            None => spec_bencode_encode(reply_view(tid@, id@, token@, entry_of(nodes))) is None,
        },
{
    let ghost entry = entry_of(nodes);
    let k_id: [u8; 2] = [105, 100];
    let k_token: [u8; 5] = [116, 111, 107, 101, 110];
    let k_nodes: [u8; 5] = [110, 111, 100, 101, 115];
    let k_nodes6: [u8; 6] = [110, 111, 100, 101, 115, 54];
    let k_t: [u8; 1] = [116];
    let k_y: [u8; 1] = [121];
    let k_r: [u8; 1] = [114];
    assert(k_id@ =~= key_id());
    assert(k_token@ =~= key_token());
    assert(k_nodes@ =~= key_nodes());
    assert(k_nodes6@ =~= key_nodes6());
    assert(k_t@ =~= key_t());
    assert(k_y@ =~= key_y());
    assert(k_r@ =~= key_r());
    let mut r_entries: Vec<(Vec<u8>, BValue)> = Vec::new();
    r_entries.push((key(&k_id), bytes_value(key(id))));
    r_entries.push((key(&k_token), bytes_value(key(token))));
    match nodes {
        Some((v6, data)) => {
            let k = if v6 {
                key(&k_nodes6)
            } else {
                key(&k_nodes)
            };
            r_entries.push((k, bytes_value(data)));
        },
        None => {},
    }
    let ghost base = seq![(key_id(), BView::Bytes(id@)), (key_token(), BView::Bytes(token@))];
    let ghost rv = match entry {
        Some((k, d)) => base.push((k, BView::Bytes(d))),
        None => base,
    };
    assert(dict_view(r_entries@) =~= rv);
    let r_value = dict_value(r_entries);
    let mut msg: Vec<(Vec<u8>, BValue)> = Vec::new();
    msg.push((key(&k_t), bytes_value(key(tid))));
    msg.push((key(&k_y), bytes_value(key(&k_r))));
    msg.push((key(&k_r), r_value));
    let v = dict_value(msg);
    assert(dict_view(msg@) =~= seq![
        (key_t(), BView::Bytes(tid@)),
        (key_y(), BView::Bytes(key_r())),
        (key_r(), BView::Dict(rv)),
    ]);
    assert(v@ == reply_view(tid@, id@, token@, entry));
    bencode(&v)
}

/// How a message is handled: queries with a name, responses with fields,
/// and nothing else.
#[derive(Debug, Clone, Copy, PartialEq, Eq, Structural)]
pub enum MessageRoute {
    Query,
    Response,
    Ignore,
}

/// A message of type `q` with a query name is a query, one of type `r`
/// with response fields a response; the rest is ignored.
pub fn route_message(msg: &DhtMessage) -> (r: MessageRoute)
    ensures
        r == (if msg.y@ == seq!['q'] && msg.q is Some {
            MessageRoute::Query
        } else if msg.y@ == seq!['r'] && msg.r is Some {
            MessageRoute::Response
        } else {
            MessageRoute::Ignore
        }),
{
    proof {
        reveal_strlit("q");
        reveal_strlit("r");
        assert("q"@ =~= seq!['q']);
        assert("r"@ =~= seq!['r']);
        assert(seq!['q'][0] != seq!['r'][0]);
        assert(seq!['q'] != seq!['r']);
    }
    if str_eq(msg.y.as_str(), "q") {
        if msg.q.is_some() {
            return MessageRoute::Query;
        }
        return MessageRoute::Ignore;
    }
    if str_eq(msg.y.as_str(), "r") {
        if msg.r.is_some() {
            return MessageRoute::Response;
        }
        return MessageRoute::Ignore;
    }
    MessageRoute::Ignore
}

/// The port an `announce_peer` names: the source port when `implied_port`
/// is non-zero, else the `port` argument; with no `implied_port`, the
/// `port` argument or else the source port. Zero means none.
pub open spec fn announce_port_spec(implied_port: Option<u8>, port: Option<u16>, source_port: u16) -> u16 {
    match implied_port {
        Some(implied) => if implied != 0 {
            source_port
        } else {
            match port {
                Some(p) => p,
                None => 0,
            }
        },
        None => match port {
            Some(p) => p,
            None => source_port,
        },
    }
}

pub fn announce_port(args: &DhtArgs, source_port: u16) -> (p: u16)
    ensures
        p == announce_port_spec(args.implied_port, args.port, source_port),
{
    match args.implied_port {
        Some(implied) => {
            if implied != 0 {
                source_port
            } else {
                match args.port {
                    Some(p) => p,
                    None => 0,
                }
            }
        },
        None => match args.port {
            Some(p) => p,
            None => source_port,
        },
    }
}

/// An `announce_peer` with a token, judged valid, and a 20-byte info hash
/// gives the hash in lower-case hex and the peer: the sender's address with
/// the announced port (see `announce_port_spec`). Anything else gives
/// nothing.
pub fn announce_from(args: &DhtArgs, addr: &NodeAddr, token_valid: bool) -> (r: Option<(String, NodeAddr)>)
    ensures
        r is Some <==> (args.token is Some && token_valid && args.info_hash is Some
            && args.info_hash.unwrap()@.len() == 20),
        r matches Some((hex, peer)) ==> hex@ == hex_lower(args.info_hash.unwrap()@) && peer == (NodeAddr {
            ip: addr.ip,
            port: announce_port_spec(args.implied_port, args.port, addr.port),
        }),
{
    if args.token.is_none() || !token_valid {
        return None;
    }
    match &args.info_hash {
        Some(info_hash) => {
            if info_hash.len() != 20 {
                return None;
            }
            let hash_hex = hex_encode(info_hash.as_slice());
            let port = announce_port(args, addr.port);
            Some((hash_hex, NodeAddr { ip: addr.ip, port }))
        },
        None => None,
    }
}

#[verifier::external_type_specification]
#[verifier::external_body]
pub struct ExInstant(std::time::Instant);

/// `std::time::Instant::now`: the current time; nothing is stated of it.
#[verifier::external_body]
fn instant_now() -> std::time::Instant {
    std::time::Instant::now()
}

/// An info hash announced by a peer, for the metadata scheduler.
#[derive(Debug)]
pub struct HashDiscovered {
    /// The info hash in lower-case hex.
    pub info_hash: String,
    /// The peer that announced it.
    pub peer_addr: NodeAddr,
    /// When it was announced.
    pub discovered_at: std::time::Instant,
}

/// The event for an announced hash that passed the filter: none when the
/// announced port is zero.
pub fn discovered_event(info_hash: String, peer: NodeAddr) -> (r: Option<HashDiscovered>)
    ensures
        r is Some <==> peer.port != 0,
        r matches Some(e) ==> e.info_hash@ == info_hash@ && e.peer_addr == peer,
{
    if peer.port == 0 {
        None
    } else {
        Some(HashDiscovered { info_hash, peer_addr: peer, discovered_at: instant_now() })
    }
}

// ---------------------------------------------------------------------------
// The node's identity
// ---------------------------------------------------------------------------

/// The queue family a reply draws nodes from: the crawler's only family,
/// or in dual-stack mode the requestor's.
pub open spec fn reply_filter(netmode: NetMode, requestor_is_ipv6: bool) -> Option<bool> {
    match netmode {
        NetMode::Ipv4Only => Some(false),
        NetMode::Ipv6Only => Some(true),
        NetMode::DualStack => Some(requestor_is_ipv6),
    }
}

/// The `nodes` (IPv4 requestor) or `nodes6` (IPv6 requestor) entry of a
/// reply carrying `sample`, when it has records of the requestor's family.
pub open spec fn nodes_entry(sample: Seq<NodeView>, requestor_is_ipv6: bool) -> Option<(Seq<u8>, Seq<u8>)> {
    let d = encode_family(sample, requestor_is_ipv6);
    if d.len() == 0 {
        None
    } else {
        Some((if requestor_is_ipv6 { key_nodes6() } else { key_nodes() }, d))
    }
}

/// The id a reply shows: near the sender's id, or else near the target or
/// info hash asked for, or else the node's own.
pub open spec fn reply_id_ok(id: Seq<u8>, sender_id: Option<Seq<u8>>, fallback: Option<Seq<u8>>, local: Seq<u8>) -> bool {
    match sender_id {
        Some(s) => neighbor_ok(id, s, local),
        None => match fallback {
            Some(f) => neighbor_ok(id, f, local),
            None => id == local,
        },
    }
}

pub open spec fn opt_view(v: Option<&Vec<u8>>) -> Option<Seq<u8>> {
    match v {
        Some(x) => Some(x@),
        None => None,
    }
}

pub open spec fn opt_bytes(v: Option<Vec<u8>>) -> Option<Seq<u8>> {
    match v {
        Some(x) => Some(x@),
        None => None,
    }
}

/// `r` is the reply a node of id `local` and mode `netmode`, with pool `q`,
/// gives a `query_type` query with transaction id `tid` from `remote`: an id
/// near the sender's (see `reply_id_ok`), an 8-byte token, and for
/// `get_peers` and `find_node` the records of a sample of distinct pool
/// nodes of the reply's family, as many as `sample_len` gives for 8 (see
/// `nodes_entry`); `None` where the bencoding fails.
pub open spec fn reply_ok(
    local: Seq<u8>,
    netmode: NetMode,
    q: Seq<Seq<NodeView>>,
    tid: Seq<u8>,
    remote: NodeAddr,
    query_type: Seq<char>,
    sender_id: Option<Seq<u8>>,
    fallback: Option<Seq<u8>>,
    r: Option<Seq<u8>>,
) -> bool {
    exists|id: Seq<u8>, token: Seq<u8>, sample: Seq<NodeView>|
        #![trigger reply_view(tid, id, token, nodes_entry(sample, remote.is_ipv6()))]
        {
            &&& reply_id_ok(id, sender_id, fallback, local)
            &&& token.len() == 8
            &&& if query_type == seq!['g', 'e', 't', '_', 'p', 'e', 'e', 'r', 's'] || query_type
                == seq!['f', 'i', 'n', 'd', '_', 'n', 'o', 'd', 'e'] {
                let filter = reply_filter(netmode, remote.is_ipv6());
                &&& sample.len() == sample_len(q, 8, filter)
                &&& forall|i: int| 0 <= i < sample.len() ==> in_filter(q, filter, #[trigger] sample[i])
                &&& addrs_distinct(sample)
            } else {
                sample.len() == 0
            }
            &&& spec_bencode_encode(reply_view(tid, id, token, nodes_entry(sample, remote.is_ipv6()))) == r
        }
}

/// The name of the `announce_peer` query.
pub open spec fn announce_peer_name() -> Seq<char> {
    seq!['a', 'n', 'n', 'o', 'u', 'n', 'c', 'e', '_', 'p', 'e', 'e', 'r']
}

/// The id a reply is shown near when the query has no sender id: the
/// target asked for, or else the info hash.
pub open spec fn fallback_of(args: DhtArgs) -> Option<Seq<u8>> {
    match args.target {
        Some(t) => Some(t@),
        None => match args.info_hash {
            Some(h) => Some(h@),
            None => None,
        },
    }
}

/// What a query brings: the hash an `announce_peer` announced, and the
/// reply's bytes.
#[derive(Debug)]
pub struct QueryOutcome {
    pub announced: Option<(String, NodeAddr)>,
    pub reply: Option<Vec<u8>>,
}

/// The crawler's own node: its address families, its id and the secret its
/// tokens are made with.
pub struct DhtCore {
    netmode: NetMode,
    node_id: Vec<u8>,
    token_secret: Vec<u8>,
}

impl DhtCore {
    pub closed spec fn spec_netmode(&self) -> NetMode {
        self.netmode
    }

    pub closed spec fn spec_node_id(&self) -> Seq<u8> {
        self.node_id@
    }

    pub closed spec fn spec_token_secret(&self) -> Seq<u8> {
        self.token_secret@
    }

    /// A node of the given mode with a random 20-byte id and a random
    /// 10-byte token secret.
    pub fn new(netmode: NetMode) -> (c: Self)
        ensures
            c.spec_netmode() == netmode,
            c.spec_node_id().len() == 20,
            c.spec_token_secret().len() == 10,
    {
        let node_id = generate_random_id();
        let mut token_secret: Vec<u8> = Vec::new();
        while token_secret.len() < 10
            invariant
                token_secret@.len() <= 10,
            decreases 10 - token_secret@.len(),
        {
            token_secret.push(random_byte());
        }
        DhtCore { netmode, node_id, token_secret }
    }

    /// A node with the given id and token secret.
    pub fn from_parts(netmode: NetMode, node_id: Vec<u8>, token_secret: Vec<u8>) -> (c: Self)
        ensures
            c.spec_netmode() == netmode,
            c.spec_node_id() == node_id@,
            c.spec_token_secret() == token_secret@,
    {
        DhtCore { netmode, node_id, token_secret }
    }

    pub fn netmode(&self) -> (m: NetMode)
        ensures
            m == self.spec_netmode(),
    {
        self.netmode
    }

    pub fn node_id(&self) -> (id: &Vec<u8>)
        ensures
            id@ == self.spec_node_id(),
    {
        &self.node_id
    }

    /// The token for an address: a hash of its IP octets and the secret
    /// (8 bytes).
    pub fn generate_token(&self, addr: &NodeAddr) -> (t: Vec<u8>)
        ensures
            t@.len() == 8,
    {
        match addr.ip {
            IpAddress::V4(octets) => ahash_token(&octets, self.token_secret.as_slice()),
            IpAddress::V6(octets) => ahash_token(&octets, self.token_secret.as_slice()),
        }
    }

    /// Whether a token is the one `generate_token` makes for the address;
    /// one of another length never is.
    pub fn validate_token(&self, token: &[u8], addr: &NodeAddr) -> (r: bool)
        ensures
            token@.len() != 8 ==> !r,
    {
        if token.len() != 8 {
            return false;
        }
        let expected = self.generate_token(addr);
        token_matches(token, expected.as_slice())
    }

    /// `announce_from`, with the token checked by `validate_token`.
    pub fn handle_announce_peer(&self, args: &DhtArgs, addr: &NodeAddr) -> (r: Option<(String, NodeAddr)>)
        ensures
            r is Some ==> (args.token is Some && args.token.unwrap()@.len() == 8 && args.info_hash is Some
                && args.info_hash.unwrap()@.len() == 20),
            r matches Some((hex, peer)) ==> hex@ == hex_lower(args.info_hash.unwrap()@) && peer == (NodeAddr {
                ip: addr.ip,
                port: announce_port_spec(args.implied_port, args.port, addr.port),
            }),
    {
        let token_valid = match &args.token {
            Some(token) => self.validate_token(token.as_slice(), addr),
            None => false,
        };
        announce_from(args, addr, token_valid)
    }

    /// A query named `query_type`: nothing without arguments; else an
    /// `announce_peer` is checked (see `handle_announce_peer`), and the
    /// reply is built from the sender's id, or else the target or info hash
    /// asked for (see `build_response`).
    pub fn handle_query(
        &self,
        queue: &ShardedNodeQueue,
        msg: &DhtMessage,
        query_type: &str,
        remote: &NodeAddr,
    ) -> (r: QueryOutcome)
        requires
            queue.wf(),
        ensures
            msg.a is None ==> r.announced is None && r.reply is None,
            msg.a matches Some(args) ==> {
                &&& query_type@ != announce_peer_name() ==> r.announced is None
                &&& r.announced matches Some((hex, peer)) ==> {
                    &&& args.token is Some && args.token.unwrap()@.len() == 8
                    &&& args.info_hash is Some && args.info_hash.unwrap()@.len() == 20
                    &&& hex@ == hex_lower(args.info_hash.unwrap()@)
                    &&& peer == (NodeAddr {
                        ip: remote.ip,
                        port: announce_port_spec(args.implied_port, args.port, remote.port),
                    })
                }
                &&& reply_ok(
                    self.spec_node_id(),
                    self.spec_netmode(),
                    queue@,
                    msg.t@,
                    *remote,
                    query_type@,
                    opt_bytes(args.id),
                    fallback_of(args),
                    opt_bytes(r.reply),
                )
            },
    {
        match &msg.a {
            None => QueryOutcome { announced: None, reply: None },
            Some(args) => {
                proof {
                    reveal_strlit("announce_peer");
                    assert("announce_peer"@ =~= announce_peer_name());
                }
                let announced = if str_eq(query_type, "announce_peer") {
                    self.handle_announce_peer(args, remote)
                } else {
                    None
                };
                let sender_id = match &args.id {
                    Some(id) => Some(id),
                    None => None,
                };
                let fallback = match &args.target {
                    Some(t) => Some(t),
                    None => match &args.info_hash {
                        Some(h) => Some(h),
                        None => None,
                    },
                };
                let reply = self.build_response(queue, msg.t.as_slice(), remote, query_type, sender_id, fallback);
                QueryOutcome { announced, reply }
            },
        }
    }

    /// Adds the nodes a response carries to the pool: the `nodes` records,
    /// then the `nodes6` ones (see `process_compact_nodes`).
    pub fn handle_response(&self, queue: &mut ShardedNodeQueue, response: &DhtResponse)
        requires
            old(queue).wf(),
        ensures
            final(queue).wf(),
            final(queue).slot_caps() == old(queue).slot_caps(),
            ({
                let cap = old(queue).slot_caps();
                let q1 = match response.nodes {
                    Some(b) => if self.spec_netmode() == NetMode::Ipv6Only || b@.len() % 26 != 0 {
                        old(queue)@
                    } else {
                        push_all(old(queue)@, cap, decode_v4_nodes(b@))
                    },
                    None => old(queue)@,
                };
                let q2 = match response.nodes6 {
                    Some(b) => if self.spec_netmode() == NetMode::Ipv4Only || b@.len() % 38 != 0 {
                        q1
                    } else {
                        push_all(q1, cap, decode_v6_nodes(b@))
                    },
                    None => q1,
                };
                final(queue)@ == q2
            }),
    {
        match &response.nodes {
            Some(nodes_bytes) => process_compact_nodes(queue, self.netmode, nodes_bytes.as_slice()),
            None => {},
        }
        match &response.nodes6 {
            Some(nodes6_bytes) => process_compact_nodes_v6(queue, self.netmode, nodes6_bytes.as_slice()),
            None => {},
        }
    }

    /// The bytes of the reply to a query from `remote` (see `reply_view`):
    /// an id near the sender's (see `reply_id_ok`), the token for the
    /// requestor, and for `get_peers` and `find_node` the records of up to
    /// 8 random pool nodes of the reply's family (see `nodes_entry`).
    pub fn build_response(
        &self,
        queue: &ShardedNodeQueue,
        tid: &[u8],
        remote: &NodeAddr,
        query_type: &str,
        sender_id: Option<&Vec<u8>>,
        target_id_fallback: Option<&Vec<u8>>,
    ) -> (r: Option<Vec<u8>>)
        requires
            queue.wf(),
        ensures
            reply_ok(
                self.spec_node_id(),
                self.spec_netmode(),
                queue@,
                tid@,
                *remote,
                query_type@,
                opt_view(sender_id),
                opt_view(target_id_fallback),
                opt_bytes(r),
            ),
    {
        let my_id = match sender_id {
            Some(s) => generate_neighbor_target(s.as_slice(), self.node_id.as_slice()),
            None => match target_id_fallback {
                Some(t) => generate_neighbor_target(t.as_slice(), self.node_id.as_slice()),
                None => self.node_id.clone(),
            },
        };
        proof {
            if sender_id is None && target_id_fallback is None {
                assert(my_id@ =~= self.node_id@);
            }
        }
        let token = self.generate_token(remote);
        proof {
            reveal_strlit("get_peers");
            reveal_strlit("find_node");
        }
        let wants_nodes = str_eq(query_type, "get_peers") || str_eq(query_type, "find_node");
        assert("get_peers"@ =~= seq!['g', 'e', 't', '_', 'p', 'e', 'e', 'r', 's']);
        assert("find_node"@ =~= seq!['f', 'i', 'n', 'd', '_', 'n', 'o', 'd', 'e']);
        let requestor_is_ipv6 = remote.is_ipv6();
        let mut nodes: Vec<NodeTuple> = Vec::new();
        if wants_nodes {
            let filter_ipv6 = match self.netmode {
                NetMode::Ipv4Only => Some(false),
                NetMode::Ipv6Only => Some(true),
                NetMode::DualStack => Some(requestor_is_ipv6),
            };
            nodes = queue.get_random_nodes(8, filter_ipv6);
        }
        assert(!wants_nodes ==> node_views(nodes@) =~= Seq::<NodeView>::empty());
        let (nodes_data, nodes6_data) = encode_compact_nodes(&nodes);
        let entry = if requestor_is_ipv6 {
            if nodes6_data.len() > 0 {
                Some((true, nodes6_data))
            } else {
                None
            }
        } else if nodes_data.len() > 0 {
            Some((false, nodes_data))
        } else {
            None
        };
        let r = reply_message(tid, my_id.as_slice(), token.as_slice(), entry);
        proof {
            let sample = node_views(nodes@);
            assert(sample.len() == nodes@.len());
            assert forall|i: int| 0 <= i < sample.len() implies sample[i] == nodes@[i]@ by {}
            let _ = reply_view(tid@, my_id@, token@, nodes_entry(sample, remote.is_ipv6()));
        }
        r
    }
}

// ---------------------------------------------------------------------------
// The crawl loop
// ---------------------------------------------------------------------------

/// The family filter of a network mode: `Some(false)` for IPv4 only,
/// `Some(true)` for IPv6 only, `None` for both.
pub open spec fn netmode_filter(netmode: NetMode) -> Option<bool> {
    match netmode {
        NetMode::Ipv4Only => Some(false),
        NetMode::Ipv6Only => Some(true),
        NetMode::DualStack => None,
    }
}

/// The family the crawl loop pops nodes of: the crawler's only family, or
/// both in dual-stack mode.
pub fn queue_filter(netmode: NetMode) -> (f: Option<bool>)
    ensures
        f == netmode_filter(netmode),
{
    match netmode {
        NetMode::Ipv4Only => Some(false),
        NetMode::Ipv6Only => Some(true),
        NetMode::DualStack => None,
    }
}

/// Whether a bootstrap address of the given family is used.
pub fn bootstrap_accepts(netmode: NetMode, addr_is_ipv6: bool) -> (b: bool)
    ensures
        b == match netmode {
            NetMode::Ipv4Only => !addr_is_ipv6,
            NetMode::Ipv6Only => addr_is_ipv6,
            NetMode::DualStack => true,
        },
{
    match netmode {
        NetMode::Ipv4Only => !addr_is_ipv6,
        NetMode::Ipv6Only => addr_is_ipv6,
        NetMode::DualStack => true,
    }
}

/// The IPv4 wildcard address 0.0.0.0 on a port.
pub open spec fn any_v4(port: u16) -> NodeAddr {
    NodeAddr { ip: IpAddress::V4([0u8, 0u8, 0u8, 0u8]), port }
}

/// The IPv6 wildcard address [::] on a port.
pub open spec fn any_v6(port: u16) -> NodeAddr {
    NodeAddr {
        ip: IpAddress::V6([0u8, 0u8, 0u8, 0u8, 0u8, 0u8, 0u8, 0u8, 0u8, 0u8, 0u8, 0u8, 0u8, 0u8, 0u8, 0u8]),
        port,
    }
}

/// The wildcard addresses the crawler binds: 0.0.0.0 and/or [::] on the
/// port, as the mode asks.
pub fn bind_addresses(netmode: NetMode, port: u16) -> (v: Vec<NodeAddr>)
    ensures
        v@ == match netmode {
            NetMode::Ipv4Only => seq![any_v4(port)],
            NetMode::Ipv6Only => seq![any_v6(port)],
            NetMode::DualStack => seq![any_v4(port), any_v6(port)],
        },
{
    let v4 = NodeAddr { ip: IpAddress::V4([0u8, 0u8, 0u8, 0u8]), port };
    let v6 = NodeAddr {
        ip: IpAddress::V6([0u8, 0u8, 0u8, 0u8, 0u8, 0u8, 0u8, 0u8, 0u8, 0u8, 0u8, 0u8, 0u8, 0u8, 0u8, 0u8]),
        port,
    };
    let mut v: Vec<NodeAddr> = Vec::new();
    match netmode {
        NetMode::Ipv4Only => {
            v.push(v4);
        },
        NetMode::Ipv6Only => {
            v.push(v6);
        },
        NetMode::DualStack => {
            v.push(v4);
            v.push(v6);
        },
    }
    assert(v@ =~= match netmode {
        NetMode::Ipv4Only => seq![any_v4(port)],
        NetMode::Ipv6Only => seq![any_v6(port)],
        NetMode::DualStack => seq![any_v4(port), any_v6(port)],
    });
    v
}

/// The batch size and pause (ms) for a metadata queue of `queue_len` out of
/// `max_queue`: below 80% full, 200 nodes and 10 ms; below 95%, 20 nodes
/// and 500 ms; else none and 1000 ms.
pub open spec fn pressure_plan(queue_len: nat, max_queue: nat) -> (usize, u64) {
    if 5 * queue_len < 4 * max_queue {
        (200, 10)
    } else if 20 * queue_len < 19 * max_queue {
        (20, 500)
    } else {
        (0, 1000)
    }
}

pub fn pressure_step(queue_len: usize, max_queue: usize) -> (r: (usize, u64))
    ensures
        r == pressure_plan(queue_len as nat, max_queue as nat),
{
    let q = queue_len as u128;
    let m = max_queue as u128;
    if 5 * q < 4 * m {
        (200, 10)
    } else if 20 * q < 19 * m {
        (20, 500)
    } else {
        (0, 1000)
    }
}

/// What one turn of the crawl loop does.
#[derive(Debug)]
pub struct CrawlTurn {
    /// The nodes to query, if a batch was taken.
    pub nodes: Option<Vec<NodeTuple>>,
    /// Whether to query the bootstrap nodes.
    pub bootstrap: bool,
    /// The pause after the turn, in ms.
    pub sleep_ms: u64,
    /// The loop counter after the turn.
    pub tick: u64,
}

/// One turn of the crawl loop: from the metadata queue's fill, a batch of
/// nodes is taken from the pool unless the pool's family is empty or the
/// queue is too full; the bootstrap nodes are queried when no batch was
/// taken and on every 50th turn.
pub fn crawl_turn(
    queue: &mut ShardedNodeQueue,
    netmode: NetMode,
    queue_len: usize,
    max_queue: usize,
    tick: u64,
) -> (t: CrawlTurn)
    requires
        old(queue).wf(),
    ensures
        final(queue).wf(),
        final(queue).slot_caps() == old(queue).slot_caps(),
        t.sleep_ms == pressure_plan(queue_len as nat, max_queue as nat).1,
        t.tick == vstd::wrapping::u64_specs::wrapping_add(tick, 1),
        t.nodes is None <==> (crate::sharded::empty_for(old(queue)@, netmode_filter(netmode))
            || pressure_plan(queue_len as nat, max_queue as nat).0 == 0),
        t.nodes is None ==> final(queue)@ == old(queue)@,
        t.nodes matches Some(v) ==> node_views(v@) == crate::sharded::popped(
            old(queue)@,
            crate::sharded::visit_order(netmode_filter(netmode)),
            pressure_plan(queue_len as nat, max_queue as nat).0 as nat,
            crate::sharded::per_visit(
                pressure_plan(queue_len as nat, max_queue as nat).0 as nat,
                netmode_filter(netmode),
            ),
            crate::sharded::visit_order(netmode_filter(netmode)).len() as int,
        ),
        t.bootstrap == (t.nodes is None || t.tick % 50 == 0),
{
    let (batch_size, sleep_ms) = pressure_step(queue_len, max_queue);
    let filter_ipv6 = queue_filter(netmode);
    let queue_empty = queue.is_empty_for(filter_ipv6);
    let nodes = if queue_empty || batch_size == 0 {
        None
    } else {
        Some(queue.pop_batch(batch_size, filter_ipv6))
    };
    let next_tick = tick.wrapping_add(1);
    let bootstrap = nodes.is_none() || next_tick % 50 == 0;
    CrawlTurn { nodes, bootstrap, sleep_ms, tick: next_tick }
}

/// The `find_node` query the crawl loop sends a node: a random target,
/// sent under an id near the node's own (see `neighbor_ok`).
pub fn crawl_query(node: &NodeTuple, local_id: &[u8]) -> (r: Option<Vec<u8>>)
    ensures
        exists|target: Seq<u8>, sender: Seq<u8>|
            #![trigger find_node_view(target, sender)]
            {
                &&& target.len() == 20
                &&& neighbor_ok(sender, node.id@, local_id@)
                &&& match r {
                    Some(b) => spec_bencode_encode(find_node_view(target, sender)) == Some(b@),
                    None => spec_bencode_encode(find_node_view(target, sender)) is None,
                }
            },
{
    let neighbor_id = generate_neighbor_target(node.id.as_slice(), local_id);
    let random_target = generate_random_id();
    let r = find_node_message(random_target.as_slice(), neighbor_id.as_slice());
    proof {
        let _ = find_node_view(random_target@, neighbor_id@);
    }
    r
}

// ---------------------------------------------------------------------------
// Handing packets to workers
// ---------------------------------------------------------------------------

/// Why a received packet was not handed to a worker.
#[derive(Debug, Clone, Copy, PartialEq, Eq, Structural)]
pub enum ProcessUdpPacketError {
    PacketTooLarge,
    InvalidPacket,
    ChokedWorkers,
    NoLiveWorkers,
}

/// The first check on a received packet: at most 8192 bytes, starting
/// with `d` (a bencoded dictionary).
pub fn check_packet(size: usize, first_byte: Option<u8>) -> (r: Result<(), ProcessUdpPacketError>)
    ensures
        r == if size > 8192 {
            Err(ProcessUdpPacketError::PacketTooLarge)
        } else if size == 0 || first_byte != Some(100u8) {
            Err(ProcessUdpPacketError::InvalidPacket)
        } else {
            Ok(())
        },
{
    if size > 8192 {
        return Err(ProcessUdpPacketError::PacketTooLarge);
    }
    if size == 0 {
        return Err(ProcessUdpPacketError::InvalidPacket);
    }
    match first_byte {
        Some(b) => if b != 100u8 {
            Err(ProcessUdpPacketError::InvalidPacket)
        } else {
            Ok(())
        },
        None => Err(ProcessUdpPacketError::InvalidPacket),
    }
}

/// What became of an attempt to hand a packet to a worker.
#[derive(Debug, Clone, Copy, PartialEq, Eq, Structural)]
pub enum SendOutcome {
    Sent,
    Full,
    Closed,
}

/// What the dispatcher asks next.
#[derive(Debug, Clone, Copy, PartialEq, Eq, Structural)]
pub enum DispatchStep {
    /// The packet is delivered.
    Delivered,
    /// Try the worker at `worker_index`.
    Retry,
    /// Remove the worker at this index (swapping the last one in), then
    /// try the worker at `worker_index`.
    RemoveAndRetry(usize),
    /// Remove the worker at this index; no worker is left.
    RemoveAndFail(usize),
    /// Give the packet up.
    Fail(ProcessUdpPacketError),
}

/// The dispatch after worker `index` of `workers` was found full, with
/// `choked` full workers met since the last pass through worker 0: `None`
/// when the packet is given up (at worker 0, once the count reaches the
/// number of workers), else the next worker and the new count (reset at
/// worker 0). The count saturates at `usize::MAX`.
pub open spec fn after_full(index: nat, workers: nat, choked: nat) -> Option<(nat, nat)> {
    let c: nat = if choked < usize::MAX {
        choked + 1
    } else {
        usize::MAX as nat
    };
    if index == 0 && c >= workers {
        None
    } else {
        Some(((index + 1) % workers, if index == 0 {
            0
        } else {
            c
        }))
    }
}

/// The dispatch after `k` workers in a row were found full, starting at
/// `index` with count `choked`; `None` once the packet was given up.
pub open spec fn full_run(index: nat, workers: nat, choked: nat, k: nat) -> Option<(nat, nat)>
    decreases k,
{
    if k == 0 {
        Some((index, choked))
    } else {
        match full_run(index, workers, choked, (k - 1) as nat) {
            Some((i, c)) => after_full(i, workers, c),
            None => None,
        }
    }
}

proof fn lemma_full_run_bound(index: nat, workers: nat, k: nat)
    requires
        index < workers,
        k < workers,
    ensures
        full_run(index, workers, 0, k) matches Some((i, c)) && i < workers && c <= k,
    decreases k,
{
    if k > 0 {
        lemma_full_run_bound(index, workers, (k - 1) as nat);
    }
}

/// A packet is never given up as choked before every worker was tried:
/// whatever worker it starts at, fewer full answers than there are workers
/// all lead to another try.
pub proof fn lemma_every_worker_tried(index: nat, workers: nat, k: nat)
    requires
        index < workers,
        k < workers,
    ensures
        full_run(index, workers, 0, k) is Some,
{
    lemma_full_run_bound(index, workers, k);
}

/// The dispatch after worker `index` of `workers` was found closed and
/// removed: `None` when no worker is left, else the next worker, the workers
/// left and the unchanged count.
pub open spec fn after_closed(index: nat, workers: nat, choked: nat) -> Option<(nat, nat, nat)> {
    if workers <= 1 {
        None
    } else {
        Some(((index + 1) % ((workers - 1) as nat), (workers - 1) as nat, choked))
    }
}

/// The dispatch of one packet after the workers answered `outcomes` in
/// turn (each full or closed): worker, workers left and count, or `None`
/// once the packet was given up.
pub open spec fn dispatch_run(index: nat, workers: nat, choked: nat, outcomes: Seq<SendOutcome>) -> Option<
    (nat, nat, nat),
>
    decreases outcomes.len(),
{
    if outcomes.len() == 0 {
        Some((index, workers, choked))
    } else {
        match dispatch_run(index, workers, choked, outcomes.drop_last()) {
            Some((i, w, c)) => match outcomes.last() {
                SendOutcome::Full => match after_full(i, w, c) {
                    Some((i2, c2)) => Some((i2, w, c2)),
                    None => None,
                },
                SendOutcome::Closed => after_closed(i, w, c),
                SendOutcome::Sent => None,
            },
            None => None,
        }
    }
}

/// How many of the outcomes found a worker full.
pub open spec fn full_count(outcomes: Seq<SendOutcome>) -> nat
    decreases outcomes.len(),
{
    if outcomes.len() == 0 {
        0
    } else {
        full_count(outcomes.drop_last()) + if outcomes.last() == SendOutcome::Full {
            1nat
        } else {
            0nat
        }
    }
}

proof fn lemma_run_count(index: nat, workers: nat, outcomes: Seq<SendOutcome>)
    ensures
        dispatch_run(index, workers, 0, outcomes) matches Some((i, w, c)) ==> c <= full_count(outcomes),
    decreases outcomes.len(),
{
    if outcomes.len() > 0 {
        lemma_run_count(index, workers, outcomes.drop_last());
    }
}

/// Also with workers removed along the way, a packet is given up as choked
/// only when the full answers it met, the last one included, are at least
/// as many as the workers left.
pub proof fn lemma_choked_after_all_full(index: nat, workers: nat, outcomes: Seq<SendOutcome>)
    ensures
        dispatch_run(index, workers, 0, outcomes) matches Some((i, w, c)) ==> (after_full(i, w, c) is None
            ==> full_count(outcomes) + 1 >= w),
{
    lemma_run_count(index, workers, outcomes);
}

/// Hands packets to the workers round-robin: each packet goes to the
/// current worker, and the next one to the worker after it. A full worker
/// passes the packet on, and once every worker has been found full since the
/// last pass through worker 0 the packet is dropped; a closed worker is
/// removed.
pub struct PacketDispatch {
    worker_index: usize,
    workers: usize,
    choked_count: usize,
}

impl PacketDispatch {
    /// The worker to try next.
    pub closed spec fn spec_index(&self) -> usize {
        self.worker_index
    }

    /// The number of live workers.
    pub closed spec fn spec_workers(&self) -> usize {
        self.workers
    }

    /// Full workers met since the last pass through worker 0 (saturating).
    pub closed spec fn spec_choked(&self) -> usize {
        self.choked_count
    }

    pub open spec fn wf(&self) -> bool {
        self.spec_index() < self.spec_workers()
    }

    /// A dispatch over `workers` workers, starting at `worker_index`.
    pub fn new(worker_index: usize, workers: usize) -> (d: Self)
        requires
            worker_index < workers,
        ensures
            d.wf(),
            d.spec_index() == worker_index,
            d.spec_workers() == workers,
            d.spec_choked() == 0,
    {
        PacketDispatch { worker_index, workers, choked_count: 0 }
    }

    pub fn worker_index(&self) -> (i: usize)
        ensures
            i == self.spec_index(),
    {
        self.worker_index
    }

    pub fn workers(&self) -> (n: usize)
        ensures
            n == self.spec_workers(),
    {
        self.workers
    }

    /// The next step after the current worker answered `outcome`.
    pub fn on_outcome(&mut self, outcome: SendOutcome) -> (s: DispatchStep)
        requires
            old(self).wf(),
        ensures
            match outcome {
                SendOutcome::Sent => {
                    &&& s == DispatchStep::Delivered
                    &&& final(self).wf()
                    &&& final(self).spec_workers() == old(self).spec_workers()
                    &&& final(self).spec_index() == (old(self).spec_index() + 1) % (old(self).spec_workers() as int)
                    &&& final(self).spec_choked() == old(self).spec_choked()
                },
                SendOutcome::Full => match after_full(
                    old(self).spec_index() as nat,
                    old(self).spec_workers() as nat,
                    old(self).spec_choked() as nat,
                ) {
                    None => s == DispatchStep::Fail(ProcessUdpPacketError::ChokedWorkers) && *final(self)
                        == *old(self),
                    Some((i, c)) => {
                        &&& s == DispatchStep::Retry
                        &&& final(self).wf()
                        &&& final(self).spec_workers() == old(self).spec_workers()
                        &&& final(self).spec_index() == i
                        &&& final(self).spec_choked() == c
                    },
                },
                SendOutcome::Closed => {
                    &&& final(self).spec_workers() == old(self).spec_workers() - 1
                    &&& match after_closed(
                        old(self).spec_index() as nat,
                        old(self).spec_workers() as nat,
                        old(self).spec_choked() as nat,
                    ) {
                        None => s == DispatchStep::RemoveAndFail(old(self).spec_index())
                            && final(self).spec_index() == old(self).spec_index(),
                        Some((i, w, c)) => {
                            &&& s == DispatchStep::RemoveAndRetry(old(self).spec_index())
                            &&& final(self).wf()
                            &&& final(self).spec_index() == i
                            &&& final(self).spec_workers() == w
                            &&& final(self).spec_choked() == c
                        },
                    }
                },
            },
    {
        match outcome {
            SendOutcome::Sent => {
                self.worker_index = (self.worker_index + 1) % self.workers;
                DispatchStep::Delivered
            },
            SendOutcome::Full => {
                let c = self.choked_count.saturating_add(1);
                if self.worker_index == 0 {
                    if c >= self.workers {
                        return DispatchStep::Fail(ProcessUdpPacketError::ChokedWorkers);
                    }
                    self.choked_count = 0;
                } else {
                    self.choked_count = c;
                }
                self.worker_index = (self.worker_index + 1) % self.workers;
                DispatchStep::Retry
            },
            SendOutcome::Closed => {
                let removed = self.worker_index;
                self.workers = self.workers - 1;
                if self.workers == 0 {
                    return DispatchStep::RemoveAndFail(removed);
                }
                self.worker_index = (self.worker_index + 1) % self.workers;
                DispatchStep::RemoveAndRetry(removed)
            },
        }
    }
}

} // verus!
