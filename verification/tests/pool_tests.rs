use dht_crawler::compact::{
    encode_compact_nodes, parse_compact_nodes, parse_compact_nodes_v6, process_compact_nodes,
    process_compact_nodes_v6,
};
use dht_crawler::sharded::items_per_shard;
use dht_crawler::{IpAddress, NetMode, NodeAddr, NodeTuple, ShardedBloom, ShardedNodeQueue};

fn v4(a: u8, b: u8, c: u8, d: u8, port: u16) -> NodeAddr {
    NodeAddr { ip: IpAddress::V4([a, b, c, d]), port }
}

fn v6(last: u8, port: u16) -> NodeAddr {
    let mut o = [0u8; 16];
    o[0] = 0x20;
    o[1] = 0x01;
    o[15] = last;
    NodeAddr { ip: IpAddress::V6(o), port }
}

fn node(id: u8, addr: NodeAddr) -> NodeTuple {
    NodeTuple { id: vec![id; 20], addr }
}

#[test]
fn queue_starts_empty() {
    let q = ShardedNodeQueue::new(1000);
    assert_eq!(q.len(), 0);
    assert!(q.is_empty());
    assert!(q.is_empty_for(Some(true)));
    assert!(q.is_empty_for(Some(false)));
    assert!(q.is_empty_for(None));
}

#[test]
fn queue_push_ignores_known_address() {
    let mut q = ShardedNodeQueue::new(1000);
    q.push(node(1, v4(1, 2, 3, 4, 6881)));
    q.push(node(2, v4(1, 2, 3, 4, 6881)));
    assert_eq!(q.len(), 1);
    let popped = q.pop_batch(10, Some(false));
    assert_eq!(popped.len(), 1);
    assert_eq!(popped[0].id, vec![1u8; 20]);
    assert!(q.is_empty());
}

#[test]
fn queue_full_shard_drops_oldest() {
    // 32 nodes in all: one per shard.
    let mut q = ShardedNodeQueue::new(32);
    // (3 ^ 16) % 16 == 3 and (19 ^ 0) % 16 == 3: the same shard.
    q.push(node(1, v4(9, 9, 9, 3, 16)));
    q.push(node(2, v4(9, 9, 9, 19, 0)));
    assert_eq!(q.len(), 1);
    let popped = q.pop_batch(5, Some(false));
    assert_eq!(popped.len(), 1);
    assert_eq!(popped[0].id, vec![2u8; 20]);
}

#[test]
fn queue_families_are_separate() {
    let mut q = ShardedNodeQueue::new(1000);
    q.push(node(1, v4(1, 1, 1, 1, 1)));
    q.push(node(2, v6(1, 1)));
    assert_eq!(q.len(), 2);
    assert!(!q.is_empty_for(Some(true)));
    assert!(!q.is_empty_for(Some(false)));
    let six = q.pop_batch(10, Some(true));
    assert_eq!(six.len(), 1);
    assert!(six[0].addr.is_ipv6());
    assert!(q.is_empty_for(Some(true)));
    assert!(!q.is_empty_for(Some(false)));
    assert_eq!(q.len(), 1);
}

#[test]
fn pop_batch_takes_from_shards_in_order() {
    let mut q = ShardedNodeQueue::new(1000);
    // Shards 0 and 1 of the IPv4 family, two nodes each.
    q.push(node(1, v4(1, 1, 1, 0, 0)));
    q.push(node(2, v4(1, 1, 1, 16, 0)));
    q.push(node(3, v4(1, 1, 1, 1, 0)));
    q.push(node(4, v4(1, 1, 1, 17, 0)));
    // One per shard, stopping once one node is taken.
    let a = q.pop_batch(1, Some(false));
    assert_eq!(a.len(), 1);
    assert_eq!(a[0].id, vec![1u8; 20]);
    // Up to 2 per shard (ceil(17 / 16)): shard 0 gives one, shard 1 two.
    let b = q.pop_batch(17, Some(false));
    let ids: Vec<u8> = b.iter().map(|n| n.id[0]).collect();
    assert_eq!(ids, vec![2, 3, 4]);
    assert!(q.is_empty());
}

#[test]
fn pop_batch_dual_stack_halves_the_share() {
    let mut q = ShardedNodeQueue::new(1000);
    q.push(node(1, v4(1, 1, 1, 0, 0)));
    q.push(node(2, v6(0, 0)));
    // ceil(1 / 16) / 2 == 0: nothing is taken.
    assert!(q.pop_batch(1, None).is_empty());
    assert_eq!(q.len(), 2);
    // ceil(40 / 16) / 2 == 1: one of each family from shard 0.
    let both = q.pop_batch(40, None);
    assert_eq!(both.len(), 2);
    assert!(!both[0].addr.is_ipv6());
    assert!(both[1].addr.is_ipv6());
}

#[test]
fn random_nodes_are_distinct_and_of_the_family() {
    let mut q = ShardedNodeQueue::new(10000);
    for i in 0..40u8 {
        q.push(node(i, v4(10, 0, 0, i, 1000)));
        q.push(node(100 + i, v6(i, 2000)));
    }
    let few = q.get_random_nodes(8, Some(false));
    assert_eq!(few.len(), 8);
    let many = q.get_random_nodes(30, Some(true));
    assert_eq!(many.len(), 30);
    for set in [&few, &many] {
        for (i, a) in set.iter().enumerate() {
            for b in set.iter().skip(i + 1) {
                assert_ne!(a.addr, b.addr);
            }
        }
    }
    assert!(few.iter().all(|n| !n.addr.is_ipv6()));
    assert!(many.iter().all(|n| n.addr.is_ipv6()));
    let all = q.get_random_nodes(1000, Some(false));
    assert_eq!(all.len(), 40);
    let mixed = q.get_random_nodes(40, None);
    assert_eq!(mixed.len(), 40);
    assert_eq!(mixed.iter().filter(|n| n.addr.is_ipv6()).count(), 20);
    // The pool is unchanged.
    assert_eq!(q.len(), 80);
}

#[test]
fn random_nodes_small_count_one_per_shard() {
    let mut q = ShardedNodeQueue::new(1000);
    // Three nodes in shard 0 of the IPv4 family.
    q.push(node(1, v4(1, 1, 1, 0, 0)));
    q.push(node(2, v4(1, 1, 1, 16, 0)));
    q.push(node(3, v4(1, 1, 1, 32, 0)));
    // ceil(8 / 16) == 1 node from each nonempty shard.
    let r = q.get_random_nodes(8, Some(false));
    assert_eq!(r.len(), 1);
}

#[test]
fn compact_v4_roundtrip() {
    let nodes = vec![node(7, v4(192, 168, 1, 2, 6881)), node(8, v4(10, 0, 0, 1, 65535))];
    let (four, six) = encode_compact_nodes(&nodes);
    assert_eq!(four.len(), 52);
    assert!(six.is_empty());
    assert_eq!(&four[20..26], &[192, 168, 1, 2, 0x1a, 0xe1]);
    let back = parse_compact_nodes(&four).unwrap();
    assert_eq!(back.len(), 2);
    assert_eq!(back[0].id, vec![7u8; 20]);
    assert_eq!(back[0].addr, nodes[0].addr);
    assert_eq!(back[1].addr, nodes[1].addr);
    assert!(parse_compact_nodes(&four[..51]).is_none());
}

#[test]
fn compact_v6_skips_unspecified_and_multicast() {
    let mut bytes = Vec::new();
    let good = v6(5, 443);
    let nodes = vec![node(1, good)];
    let (_, six) = encode_compact_nodes(&nodes);
    assert_eq!(six.len(), 38);
    bytes.extend_from_slice(&six);
    // An unspecified address.
    bytes.extend_from_slice(&[2u8; 20]);
    bytes.extend_from_slice(&[0u8; 16]);
    bytes.extend_from_slice(&[0, 80]);
    // A multicast address.
    bytes.extend_from_slice(&[3u8; 20]);
    let mut m = [0u8; 16];
    m[0] = 0xff;
    m[15] = 1;
    bytes.extend_from_slice(&m);
    bytes.extend_from_slice(&[0, 80]);
    let back = parse_compact_nodes_v6(&bytes).unwrap();
    assert_eq!(back.len(), 1);
    assert_eq!(back[0].addr, good);
    assert!(parse_compact_nodes_v6(&bytes[..37]).is_none());
}

#[test]
fn compact_records_feed_the_pool() {
    let nodes = vec![node(7, v4(192, 168, 1, 2, 6881)), node(9, v6(9, 9))];
    let (four, six) = encode_compact_nodes(&nodes);
    let mut q = ShardedNodeQueue::new(1000);
    process_compact_nodes(&mut q, NetMode::Ipv6Only, &four);
    assert_eq!(q.len(), 0);
    process_compact_nodes(&mut q, NetMode::DualStack, &four[..25]);
    assert_eq!(q.len(), 0);
    process_compact_nodes(&mut q, NetMode::Ipv4Only, &four);
    assert_eq!(q.len(), 1);
    process_compact_nodes_v6(&mut q, NetMode::Ipv4Only, &six);
    assert_eq!(q.len(), 1);
    process_compact_nodes_v6(&mut q, NetMode::DualStack, &six);
    assert_eq!(q.len(), 2);
}

#[test]
fn bloom_remembers_hashes() {
    assert_eq!(items_per_shard(100), 4);
    assert_eq!(items_per_shard(0), 0);
    let mut b = ShardedBloom::with_sizes(64, items_per_shard(1000));
    let h = [7u8; 20];
    assert_eq!(b.hash_to_shard(&h), (7 | (7 << 8)) % 32);
    assert!(!b.check_and_set(&h));
    assert_eq!(b.number_of_bits(), 1);
    assert!(b.check_and_set(&h));
    assert_eq!(b.number_of_bits(), 1);
}

#[test]
fn pool_holds_at_most_its_capacity() {
    // Room for 2 nodes per shard.
    let mut q = ShardedNodeQueue::new(64);
    for i in 0..=255u8 {
        q.push(node(i, v4(10, 0, 0, i, 7)));
        q.push(node(i, v6(i, 7)));
    }
    assert_eq!(q.len(), 64);
    // Capacity 1: only the first IPv4 shard has room, for one node.
    let mut small = ShardedNodeQueue::new(1);
    small.push(node(1, v4(1, 1, 1, 1, 1)));
    small.push(node(2, v6(1, 1)));
    assert_eq!(small.len(), 1);
    assert!(small.is_empty_for(Some(true)));
}

fn loopback_v6(port: u16) -> NodeAddr {
    let mut o = [0u8; 16];
    o[15] = 1;
    NodeAddr { ip: IpAddress::V6(o), port }
}

#[test]
fn small_pool_keeps_one_node_per_family() {
    // Capacity 16: the first 16 slots hold one node each.
    let mut q = ShardedNodeQueue::new(16);
    q.push(NodeTuple { id: vec![1], addr: v4(1, 2, 3, 4, 1) });
    q.push(NodeTuple { id: vec![2], addr: loopback_v6(1) });
    assert_eq!(q.len(), 2);
    let r = q.pop_batch(16, Some(true));
    assert_eq!(r.len(), 1);
    assert_eq!(r[0].id, vec![2]);
    assert_eq!(r[0].addr, loopback_v6(1));
    assert_eq!(q.len(), 1);
    assert!(q.is_empty_for(Some(true)));
    assert!(!q.is_empty_for(Some(false)));
}

#[test]
fn small_pool_keeps_the_first_node_of_an_address() {
    let mut q = ShardedNodeQueue::new(16);
    q.push(NodeTuple { id: vec![1], addr: v4(1, 2, 3, 4, 1) });
    q.push(NodeTuple { id: vec![2], addr: v4(1, 2, 3, 4, 1) });
    assert_eq!(q.len(), 1);
    let r = q.pop_batch(16, Some(false));
    assert_eq!(r.len(), 1);
    assert_eq!(r[0].id, vec![1]);
}

#[test]
fn pool_capacity_is_shared_by_the_slots() {
    // 40 = 32 + 8: the first 8 slots (IPv4 and IPv6 of shards 0..4) hold
    // two nodes, the others one.
    let mut q = ShardedNodeQueue::new(40);
    for i in 0..=255u8 {
        q.push(node(i, v4(10, 0, 0, i, 7)));
        q.push(node(i, v6(i, 7)));
    }
    assert_eq!(q.len(), 40);
}
