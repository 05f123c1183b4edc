//! Compact node info: the 26-byte (IPv4) and 38-byte (IPv6) records of
//! node id, address and port that KRPC messages carry.
use vstd::prelude::*;

use crate::addr::{IpAddress, NodeAddr};
use crate::sharded::{push_all, NodeTuple, NodeView, ShardedNodeQueue, node_views};
use crate::types::NetMode;

verus! {

broadcast use vstd::array::group_array_axioms;

/// Bytes of an IPv4 record.
pub const COMPACT_V4_LEN: usize = 26;

/// Bytes of an IPv6 record.
pub const COMPACT_V6_LEN: usize = 38;

/// The big-endian port in two bytes.
pub open spec fn port_at(c: Seq<u8>, i: int) -> u16 {
    (c[i] * 256 + c[i + 1]) as u16
}

/// The node of an IPv4 record: a 20-byte id, four octets, the port.
pub open spec fn v4_node_of(c: Seq<u8>) -> NodeView {
    (c.subrange(0, 20), NodeAddr { ip: IpAddress::V4([c[20], c[21], c[22], c[23]]), port: port_at(c, 24) })
}

/// The node of an IPv6 record: a 20-byte id, sixteen octets, the port.
pub open spec fn v6_node_of(c: Seq<u8>) -> NodeView {
    (
        c.subrange(0, 20),
        NodeAddr {
            ip: IpAddress::V6(
                [
                    c[20],
                    c[21],
                    c[22],
                    c[23],
                    c[24],
                    c[25],
                    c[26],
                    c[27],
                    c[28],
                    c[29],
                    c[30],
                    c[31],
                    c[32],
                    c[33],
                    c[34],
                    c[35],
                ],
            ),
            port: port_at(c, 36),
        },
    )
}

/// An IPv6 record is kept unless its address is unspecified (all zero) or
/// multicast (first octet 0xff).
pub open spec fn v6_usable(c: Seq<u8>) -> bool {
    &&& !(forall|i: int| 20 <= i < 36 ==> c[i] == 0)
    &&& c[20] != 0xff
}

/// The `k`-th record of `len` bytes.
pub open spec fn record(b: Seq<u8>, len: int, k: int) -> Seq<u8> {
    b.subrange(len * k, len * k + len)
}

/// The nodes of a run of IPv4 records.
pub open spec fn decode_v4_nodes(b: Seq<u8>) -> Seq<NodeView> {
    Seq::new(b.len() / 26, |k: int| v4_node_of(record(b, 26, k)))
}

/// The nodes of the first `k` IPv6 records that are kept.
pub open spec fn decode_v6_prefix(b: Seq<u8>, k: int) -> Seq<NodeView>
    decreases k,
{
    if k <= 0 {
        Seq::empty()
    } else {
        let prev = decode_v6_prefix(b, k - 1);
        if v6_usable(record(b, 38, k - 1)) {
            prev.push(v6_node_of(record(b, 38, k - 1)))
        } else {
            prev
        }
    }
}

/// The nodes of a run of IPv6 records, unusable addresses left out.
pub open spec fn decode_v6_nodes(b: Seq<u8>) -> Seq<NodeView> {
    decode_v6_prefix(b, (b.len() / 38) as int)
}

/// The octets of an address.
pub open spec fn ip_octets(a: NodeAddr) -> Seq<u8> {
    match a.ip {
        IpAddress::V4(o) => o@,
        IpAddress::V6(o) => o@,
    }
}

/// The record of a node: its id, its octets, its port big-endian.
pub open spec fn node_record(n: NodeView) -> Seq<u8> {
    n.0 + ip_octets(n.1) + seq![(n.1.port / 256) as u8, (n.1.port % 256) as u8]
}

/// The records of the nodes of one family, in order.
pub open spec fn encode_family(nodes: Seq<NodeView>, v6: bool) -> Seq<u8>
    decreases nodes.len(),
{
    if nodes.len() == 0 {
        Seq::empty()
    } else {
        let prev = encode_family(nodes.drop_last(), v6);
        if (nodes.last().1.ip is V6) == v6 {
            prev + node_record(nodes.last())
        } else {
            prev
        }
    }
}


/// A node whose address is of the family and whose id has 20 bytes.
pub open spec fn encodable(n: NodeView, v6: bool) -> bool {
    &&& (n.1.ip is V6) == v6
    &&& n.0.len() == 20
}

proof fn lemma_encode_family_records(nodes: Seq<NodeView>, v6: bool, len: int)
    requires
        len == if v6 {
            38int
        } else {
            26int
        },
        forall|i: int| 0 <= i < nodes.len() ==> encodable(#[trigger] nodes[i], v6),
    ensures
        encode_family(nodes, v6).len() == len * nodes.len(),
        forall|k: int|
            0 <= k < nodes.len() ==> #[trigger] record(encode_family(nodes, v6), len, k) == node_record(
                nodes[k],
            ),
    decreases nodes.len(),
{
    if nodes.len() > 0 {
        let prev = nodes.drop_last();
        assert forall|i: int| 0 <= i < prev.len() implies encodable(#[trigger] prev[i], v6) by {
            assert(prev[i] == nodes[i]);
        }
        lemma_encode_family_records(prev, v6, len);
        let e = encode_family(nodes, v6);
        let ep = encode_family(prev, v6);
        let last = nodes.last();
        assert(encodable(nodes[nodes.len() - 1], v6));
        match last.1.ip {
            IpAddress::V4(o) => assert(o@.len() == 4),
            IpAddress::V6(o) => assert(o@.len() == 16),
        }
        assert(node_record(last).len() == len);
        assert(e == ep + node_record(last));
        assert(len * prev.len() + len == len * nodes.len()) by (nonlinear_arith)
            requires
                prev.len() + 1 == nodes.len(),
        ;
        assert forall|k: int| 0 <= k < nodes.len() implies #[trigger] record(e, len, k) == node_record(
            nodes[k],
        ) by {
            assert(len * k + len <= len * nodes.len()) by (nonlinear_arith)
                requires
                    0 <= k < nodes.len(),
                    len > 0,
            ;
            if k < prev.len() {
                assert(len * k + len <= len * prev.len()) by (nonlinear_arith)
                    requires
                        0 <= k < prev.len(),
                        len > 0,
                ;
                assert(record(e, len, k) =~= record(ep, len, k));
                assert(prev[k] == nodes[k]);
            } else {
                assert(record(e, len, k) =~= node_record(last));
            }
        }
    }
}

proof fn lemma_record_v4(n: NodeView)
    requires
        encodable(n, false),
    ensures
        v4_node_of(node_record(n)) == n,
{
    let c = node_record(n);
    match n.1.ip {
        IpAddress::V4(o) => {
            assert(c.subrange(0, 20) =~= n.0);
            assert([c[20], c[21], c[22], c[23]] =~= o);
            assert(port_at(c, 24) == n.1.port);
        },
        _ => {},
    }
}

proof fn lemma_record_v6(n: NodeView)
    requires
        encodable(n, true),
    ensures
        v6_node_of(node_record(n)) == n,
        v6_usable(node_record(n)) == (!(forall|i: int| 0 <= i < 16 ==> ip_octets(n.1)[i] == 0)
            && ip_octets(n.1)[0] != 0xff),
{
    let c = node_record(n);
    match n.1.ip {
        IpAddress::V6(o) => {
            assert(c.subrange(0, 20) =~= n.0);
            assert([
                c[20],
                c[21],
                c[22],
                c[23],
                c[24],
                c[25],
                c[26],
                c[27],
                c[28],
                c[29],
                c[30],
                c[31],
                c[32],
                c[33],
                c[34],
                c[35],
            ] =~= o);
            assert(port_at(c, 36) == n.1.port);
            assert(forall|i: int| 0 <= i < 16 ==> c[20 + i] == o@[i]);
            if forall|i: int| 20 <= i < 36 ==> c[i] == 0 {
                assert forall|i: int| 0 <= i < 16 implies ip_octets(n.1)[i] == 0 by {
                    assert(c[20 + i] == 0);
                }
            }
            if forall|i: int| 0 <= i < 16 ==> ip_octets(n.1)[i] == 0 {
                assert forall|i: int| 20 <= i < 36 implies c[i] == 0 by {
                    assert(ip_octets(n.1)[i - 20] == 0);
                }
            }
        },
        _ => {},
    }
}

/// Reading back the IPv4 records that `encode_compact_nodes` writes gives
/// the same nodes, in order, when their ids have 20 bytes.
pub proof fn lemma_compact_v4_roundtrip(nodes: Seq<NodeView>)
    requires
        forall|i: int| 0 <= i < nodes.len() ==> encodable(#[trigger] nodes[i], false),
    ensures
        encode_family(nodes, false).len() % 26 == 0,
        decode_v4_nodes(encode_family(nodes, false)) == nodes,
{
    lemma_encode_family_records(nodes, false, 26);
    let e = encode_family(nodes, false);
    assert(e.len() / 26 == nodes.len()) by (nonlinear_arith)
        requires
            e.len() == 26 * nodes.len(),
    ;
    assert(e.len() % 26 == 0) by (nonlinear_arith)
        requires
            e.len() == 26 * nodes.len(),
    ;
    assert forall|k: int| 0 <= k < nodes.len() implies decode_v4_nodes(e)[k] == nodes[k] by {
        assert(record(e, 26, k) == node_record(nodes[k]));
        lemma_record_v4(nodes[k]);
    }
    assert(decode_v4_nodes(e) =~= nodes);
}

/// The `k`-th IPv4 record gives the `k`-th node: its id is the record's
/// first 20 bytes, its octets the next four, and its port the last two
/// bytes in network byte order (high byte first).
pub proof fn lemma_v4_record_fields(b: Seq<u8>, k: int)
    requires
        0 <= k < b.len() / 26,
    ensures
        decode_v4_nodes(b).len() == b.len() / 26,
        decode_v4_nodes(b)[k].0 == b.subrange(26 * k, 26 * k + 20),
        decode_v4_nodes(b)[k].1.ip == IpAddress::V4([b[26 * k + 20], b[26 * k + 21], b[26 * k + 22], b[26 * k + 23]]),
        decode_v4_nodes(b)[k].1.port as int == b[26 * k + 24] * 256 + b[26 * k + 25],
{
    assert(26 * k + 26 <= b.len()) by (nonlinear_arith)
        requires
            0 <= k < b.len() / 26,
    ;
    let c = record(b, 26, k);
    assert(c.subrange(0, 20) =~= b.subrange(26 * k, 26 * k + 20));
    assert(c[24] == b[26 * k + 24] && c[25] == b[26 * k + 25]);
    assert(c[24] * 256 + c[25] <= 65535);
}

/// The `k`-th IPv6 record, when it is kept, gives the node that follows
/// the nodes of the records kept before it: its id is the record's first
/// 20 bytes, its octets the next sixteen, and its port the last two bytes
/// in network byte order (high byte first).
pub proof fn lemma_v6_record_fields(b: Seq<u8>, k: int)
    requires
        0 <= k < b.len() / 38,
        v6_usable(record(b, 38, k)),
    ensures
        decode_v6_prefix(b, k).len() < decode_v6_nodes(b).len(),
        decode_v6_nodes(b)[decode_v6_prefix(b, k).len() as int].0 == b.subrange(38 * k, 38 * k + 20),
        decode_v6_nodes(b)[decode_v6_prefix(b, k).len() as int].1.ip is V6,
        forall|i: int|
            0 <= i < 16 ==> #[trigger] ip_octets(decode_v6_nodes(b)[decode_v6_prefix(b, k).len() as int].1)[i]
                == b[38 * k + 20 + i],
        decode_v6_nodes(b)[decode_v6_prefix(b, k).len() as int].1.port as int == b[38 * k + 36] * 256 + b[38
            * k + 37],
{
    assert(38 * k + 38 <= b.len()) by (nonlinear_arith)
        requires
            0 <= k < b.len() / 38,
    ;
    let c = record(b, 38, k);
    let m = (b.len() / 38) as int;
    lemma_v6_prefix_extends(b, k + 1, m);
    assert(decode_v6_prefix(b, k + 1) == decode_v6_prefix(b, k).push(v6_node_of(c)));
    let node = decode_v6_nodes(b)[decode_v6_prefix(b, k).len() as int];
    assert(node == v6_node_of(c));
    assert(c.subrange(0, 20) =~= b.subrange(38 * k, 38 * k + 20));
    assert forall|i: int| 0 <= i < 16 implies #[trigger] ip_octets(node.1)[i] == b[38 * k + 20 + i] by {
        assert(c[20 + i] == b[38 * k + 20 + i]);
    }
    assert(c[36] == b[38 * k + 36] && c[37] == b[38 * k + 37]);
    assert(c[36] * 256 + c[37] <= 65535);
}

proof fn lemma_v6_prefix_extends(b: Seq<u8>, k: int, m: int)
    requires
        0 <= k <= m,
    ensures
        decode_v6_prefix(b, k).len() <= decode_v6_prefix(b, m).len(),
        forall|i: int|
            0 <= i < decode_v6_prefix(b, k).len() ==> #[trigger] decode_v6_prefix(b, m)[i] == decode_v6_prefix(
                b,
                k,
            )[i],
    decreases m - k,
{
    if k < m {
        lemma_v6_prefix_extends(b, k, m - 1);
    }
}

/// The `k`-th record written holds the `k`-th node: its 20 id bytes, then
/// its address octets, then its port in network byte order (byte `len - 2`
/// of the record is the port's high byte and byte `len - 1` its low byte;
/// `len` is 26 for IPv4, 38 for IPv6).
pub proof fn lemma_records_layout(nodes: Seq<NodeView>, v6: bool, k: int)
    requires
        forall|i: int| 0 <= i < nodes.len() ==> encodable(#[trigger] nodes[i], v6),
        0 <= k < nodes.len(),
    ensures
        ({
            let len: int = if v6 {
                38
            } else {
                26
            };
            let e = encode_family(nodes, v6);
            &&& e.len() == len * nodes.len()
            &&& forall|i: int| 0 <= i < 20 ==> e[len * k + i] == #[trigger] nodes[k].0[i]
            &&& forall|i: int| 0 <= i < len - 22 ==> e[len * k + 20 + i] == #[trigger] ip_octets(nodes[k].1)[i]
            &&& e[len * k + len - 2] as int == nodes[k].1.port / 256
            &&& e[len * k + len - 1] as int == nodes[k].1.port % 256
        }),
{
    let len: int = if v6 {
        38
    } else {
        26
    };
    lemma_encode_family_records(nodes, v6, len);
    let e = encode_family(nodes, v6);
    assert(len * k + len <= len * nodes.len()) by (nonlinear_arith)
        requires
            0 <= k < nodes.len(),
            len > 0,
    ;
    let r = node_record(nodes[k]);
    assert(record(e, len, k) == r);
    assert(encodable(nodes[k], v6));
    match nodes[k].1.ip {
        IpAddress::V4(o) => assert(o@.len() == 4),
        IpAddress::V6(o) => assert(o@.len() == 16),
    }
    assert(r.len() == len);
    assert forall|i: int| 0 <= i < len implies e[len * k + i] == #[trigger] r[i] by {}
    assert forall|i: int| 0 <= i < 20 implies e[len * k + i] == #[trigger] nodes[k].0[i] by {
        assert(r[i] == nodes[k].0[i]);
    }
    assert forall|i: int| 0 <= i < len - 22 implies e[len * k + 20 + i] == #[trigger] ip_octets(nodes[k].1)[i] by {
        assert(r[20 + i] == ip_octets(nodes[k].1)[i]);
        assert(e[len * k + (20 + i)] == r[20 + i]);
    }
    assert(e[len * k + len - 2] == r[len - 2]);
    assert(e[len * k + len - 1] == r[len - 1]);
}

/// An IPv6 address that is neither unspecified nor multicast.
pub open spec fn usable_v6(n: NodeView) -> bool {
    !(forall|i: int| 0 <= i < 16 ==> ip_octets(n.1)[i] == 0) && ip_octets(n.1)[0] != 0xff
}

proof fn lemma_decode_v6_prefix(e: Seq<u8>, nodes: Seq<NodeView>, k: int)
    requires
        0 <= k <= nodes.len(),
        forall|i: int| 0 <= i < nodes.len() ==> #[trigger] record(e, 38, i) == node_record(nodes[i]),
        forall|i: int| 0 <= i < nodes.len() ==> encodable(#[trigger] nodes[i], true) && usable_v6(nodes[i]),
    ensures
        decode_v6_prefix(e, k) == nodes.take(k),
    decreases k,
{
    if k > 0 {
        lemma_decode_v6_prefix(e, nodes, k - 1);
        assert(encodable(nodes[k - 1], true) && usable_v6(nodes[k - 1]));
        lemma_record_v6(nodes[k - 1]);
        assert(record(e, 38, k - 1) == node_record(nodes[k - 1]));
        assert(nodes.take(k) =~= nodes.take(k - 1).push(nodes[k - 1]));
    }
}

/// Reading back the IPv6 records that `encode_compact_nodes` writes gives
/// the same nodes, in order, when their ids have 20 bytes and their
/// addresses are neither unspecified nor multicast.
pub proof fn lemma_compact_v6_roundtrip(nodes: Seq<NodeView>)
    requires
        forall|i: int| 0 <= i < nodes.len() ==> encodable(#[trigger] nodes[i], true) && usable_v6(nodes[i]),
    ensures
        encode_family(nodes, true).len() % 38 == 0,
        decode_v6_nodes(encode_family(nodes, true)) == nodes,
{
    assert forall|i: int| 0 <= i < nodes.len() implies encodable(#[trigger] nodes[i], true) by {}
    lemma_encode_family_records(nodes, true, 38);
    let e = encode_family(nodes, true);
    assert(e.len() / 38 == nodes.len()) by (nonlinear_arith)
        requires
            e.len() == 38 * nodes.len(),
    ;
    assert(e.len() % 38 == 0) by (nonlinear_arith)
        requires
            e.len() == 38 * nodes.len(),
    ;
    lemma_decode_v6_prefix(e, nodes, nodes.len() as int);
    assert(nodes.take(nodes.len() as int) =~= nodes);
}

fn copy_range(b: &[u8], start: usize, len: usize) -> (r: Vec<u8>)
    requires
        start + len <= b@.len(),
    ensures
        r@ == b@.subrange(start as int, start + len),
{
    let mut r: Vec<u8> = Vec::new();
    let blen = b.len();
    let mut i: usize = 0;
    while i < len
        invariant
            0 <= i <= len,
            blen == b@.len(),
            start + len <= b@.len(),
            r@ == b@.subrange(start as int, start + i),
        decreases len - i,
    {
        r.push(b[start + i]);
        assert(r@ =~= b@.subrange(start as int, start + i + 1));
        i = i + 1;
    }
    r
}

/// The nodes of a run of IPv4 records; `None` unless the length is a
/// multiple of 26.
pub fn parse_compact_nodes(nodes_bytes: &[u8]) -> (r: Option<Vec<NodeTuple>>)
    ensures
        match r {
            Some(v) => nodes_bytes@.len() % 26 == 0 && node_views(v@) == decode_v4_nodes(nodes_bytes@),
            None => nodes_bytes@.len() % 26 != 0,
        },
{
    if nodes_bytes.len() % COMPACT_V4_LEN != 0 {
        return None;
    }
    let blen = nodes_bytes.len();
    let n = blen / COMPACT_V4_LEN;
    let ghost b = nodes_bytes@;
    let mut nodes: Vec<NodeTuple> = Vec::new();
    let mut k: usize = 0;
    while k < n
        invariant
            0 <= k <= n,
            n == b.len() / 26,
            b.len() == n * 26,
            blen == b.len(),
            b == nodes_bytes@,
            node_views(nodes@) == decode_v4_nodes(b).take(k as int),
        decreases n - k,
    {
        assert(k * 26 + 26 <= n * 26) by (nonlinear_arith)
            requires
                k < n,
        ;
        let base = k * COMPACT_V4_LEN;
        let id = copy_range(nodes_bytes, base, 20);
        let ip = [
            nodes_bytes[base + 20],
            nodes_bytes[base + 21],
            nodes_bytes[base + 22],
            nodes_bytes[base + 23],
        ];
        let port = (nodes_bytes[base + 24] as u16) * 256 + nodes_bytes[base + 25] as u16;
        let node = NodeTuple { id, addr: NodeAddr { ip: IpAddress::V4(ip), port } };
        proof {
            let c = record(b, 26, k as int);
            assert(id@ =~= c.subrange(0, 20));
            assert(node@ == v4_node_of(c));
        }
        let ghost prev = nodes@;
        nodes.push(node);
        assert(node_views(nodes@) =~= node_views(prev).push(node@));
        assert(decode_v4_nodes(b).take(k + 1) =~= decode_v4_nodes(b).take(k as int).push(node@));
        k = k + 1;
    }
    assert(decode_v4_nodes(b).take(n as int) =~= decode_v4_nodes(b));
    Some(nodes)
}

/// The nodes of a run of IPv6 records, leaving out unspecified and
/// multicast addresses; `None` unless the length is a multiple of 38.
pub fn parse_compact_nodes_v6(nodes_bytes: &[u8]) -> (r: Option<Vec<NodeTuple>>)
    ensures
        match r {
            Some(v) => nodes_bytes@.len() % 38 == 0 && node_views(v@) == decode_v6_nodes(nodes_bytes@),
            None => nodes_bytes@.len() % 38 != 0,
        },
{
    if nodes_bytes.len() % COMPACT_V6_LEN != 0 {
        return None;
    }
    let blen = nodes_bytes.len();
    let n = blen / COMPACT_V6_LEN;
    let ghost b = nodes_bytes@;
    let mut nodes: Vec<NodeTuple> = Vec::new();
    let mut k: usize = 0;
    while k < n
        invariant
            0 <= k <= n,
            n == b.len() / 38,
            b.len() == n * 38,
            blen == b.len(),
            b == nodes_bytes@,
            node_views(nodes@) == decode_v6_prefix(b, k as int),
        decreases n - k,
    {
        assert(k * 38 + 38 <= n * 38) by (nonlinear_arith)
            requires
                k < n,
        ;
        let base = k * COMPACT_V6_LEN;
        let ghost c = record(b, 38, k as int);
        let mut ip: [u8; 16] = [0; 16];
        let mut j: usize = 0;
        let mut all_zero = true;
        while j < 16
            invariant
                0 <= j <= 16,
                base == k * 38,
                base + 38 <= b.len(),
                b.len() == nodes_bytes@.len(),
                blen == b.len(),
                b == nodes_bytes@,
                c == b.subrange(base as int, base + 38),
                forall|t: int| 0 <= t < j ==> ip[t] == c[20 + t],
                all_zero == (forall|t: int| 20 <= t < 20 + j ==> c[t] == 0),
            decreases 16 - j,
        {
            let byte = nodes_bytes[base + 20 + j];
            assert(byte == c[20 + j]);
            ip[j] = byte;
            if byte != 0 {
                all_zero = false;
            }
            j = j + 1;
        }
        let port = (nodes_bytes[base + 36] as u16) * 256 + nodes_bytes[base + 37] as u16;
        let ghost prev = nodes@;
        if !all_zero && ip[0] != 0xff {
            let id = copy_range(nodes_bytes, base, 20);
            let node = NodeTuple { id, addr: NodeAddr { ip: IpAddress::V6(ip), port } };
            proof {
                assert(id@ =~= c.subrange(0, 20));
                let expected = v6_node_of(c);
                match expected.1.ip {
                    IpAddress::V6(o) => {
                        assert(ip =~= o);
                    },
                    _ => {},
                }
                assert(node@ == v6_node_of(c));
                assert(v6_usable(c));
            }
            nodes.push(node);
            assert(node_views(nodes@) =~= node_views(prev).push(node@));
        } else {
            assert(!v6_usable(c));
        }
        k = k + 1;
    }
    Some(nodes)
}

/// Adds the nodes of a run of IPv4 records to the pool: nothing when the
/// crawler is IPv6-only or the length is no multiple of 26.
pub fn process_compact_nodes(queue: &mut ShardedNodeQueue, netmode: NetMode, nodes_bytes: &[u8])
    requires
        old(queue).wf(),
    ensures
        final(queue).wf(),
        final(queue).slot_caps() == old(queue).slot_caps(),
        final(queue)@ == if netmode == NetMode::Ipv6Only || nodes_bytes@.len() % 26 != 0 {
            old(queue)@
        } else {
            push_all(old(queue)@, old(queue).slot_caps(), decode_v4_nodes(nodes_bytes@))
        },
{
    if netmode == NetMode::Ipv6Only {
        return;
    }
    match parse_compact_nodes(nodes_bytes) {
        Some(nodes) => queue.push_nodes(nodes),
        None => {},
    }
}

/// Adds the usable nodes of a run of IPv6 records to the pool: nothing
/// when the crawler is IPv4-only or the length is no multiple of 38.
pub fn process_compact_nodes_v6(queue: &mut ShardedNodeQueue, netmode: NetMode, nodes_bytes: &[u8])
    requires
        old(queue).wf(),
    ensures
        final(queue).wf(),
        final(queue).slot_caps() == old(queue).slot_caps(),
        final(queue)@ == if netmode == NetMode::Ipv4Only || nodes_bytes@.len() % 38 != 0 {
            old(queue)@
        } else {
            push_all(old(queue)@, old(queue).slot_caps(), decode_v6_nodes(nodes_bytes@))
        },
{
    if netmode == NetMode::Ipv4Only {
        return;
    }
    match parse_compact_nodes_v6(nodes_bytes) {
        Some(nodes) => queue.push_nodes(nodes),
        None => {},
    }
}

/// The records of the nodes: the IPv4 ones, then the IPv6 ones, each in
/// order.
pub fn encode_compact_nodes(nodes: &Vec<NodeTuple>) -> (r: (Vec<u8>, Vec<u8>))
    ensures
        r.0@ == encode_family(node_views(nodes@), false),
        r.1@ == encode_family(node_views(nodes@), true),
{
    let ghost views = node_views(nodes@);
    let mut nodes_data: Vec<u8> = Vec::new();
    let mut nodes6_data: Vec<u8> = Vec::new();
    let mut i: usize = 0;
    while i < nodes.len()
        invariant
            0 <= i <= nodes@.len(),
            views == node_views(nodes@),
            nodes_data@ == encode_family(views.take(i as int), false),
            nodes6_data@ == encode_family(views.take(i as int), true),
        decreases nodes@.len() - i,
    {
        let node = &nodes[i];
        assert(views.take(i + 1).drop_last() =~= views.take(i as int));
        assert(views.take(i + 1).last() == node@);
        let port_bytes: [u8; 2] = [(node.addr.port / 256) as u8, (node.addr.port % 256) as u8];
        match node.addr.ip {
            IpAddress::V4(ip) => {
                let ghost before = nodes_data@;
                nodes_data.extend_from_slice(node.id.as_slice());
                nodes_data.extend_from_slice(&ip);
                nodes_data.extend_from_slice(&port_bytes);
                assert(nodes_data@ =~= before + node_record(node@));
            },
            IpAddress::V6(ip) => {
                let ghost before = nodes6_data@;
                nodes6_data.extend_from_slice(node.id.as_slice());
                nodes6_data.extend_from_slice(&ip);
                nodes6_data.extend_from_slice(&port_bytes);
                assert(nodes6_data@ =~= before + node_record(node@));
            },
        }
        i = i + 1;
    }
    assert(views.take(nodes@.len() as int) =~= views);
    (nodes_data, nodes6_data)
}

} // verus!
