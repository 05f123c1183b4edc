use dht_crawler::protocol::{DhtArgs, DhtMessage, DhtResponse};
use dht_crawler::scheduler::info_hash_bytes;
use dht_crawler::server::{
    announce_from, announce_port, bind_addresses, bootstrap_accepts, check_packet, crawl_query,
    crawl_turn, discovered_event, find_node_message, generate_neighbor_target, generate_random_id,
    pressure_step, queue_filter, reply_message, route_message, token_matches, DispatchStep,
    MessageRoute, PacketDispatch, ProcessUdpPacketError, SendOutcome,
};
use dht_crawler::{DhtCore, IpAddress, NetMode, NodeAddr, NodeTuple, ShardedNodeQueue};
use serde_bencode::value::Value;
use std::collections::HashMap;

fn v4(a: u8, b: u8, c: u8, d: u8, port: u16) -> NodeAddr {
    NodeAddr { ip: IpAddress::V4([a, b, c, d]), port }
}

fn decode_dict(bytes: &[u8]) -> HashMap<Vec<u8>, Value> {
    match serde_bencode::from_bytes::<Value>(bytes).unwrap() {
        Value::Dict(d) => d,
        _ => panic!("not a dictionary"),
    }
}

fn bytes_of(v: &Value) -> Vec<u8> {
    match v {
        Value::Bytes(b) => b.clone(),
        _ => panic!("not a byte string"),
    }
}

fn args() -> DhtArgs {
    DhtArgs { id: None, target: None, info_hash: None, token: None, port: None, implied_port: None }
}

#[test]
fn neighbor_target_takes_remote_prefix() {
    let remote = [1u8, 2, 3, 4, 5, 6, 7, 8, 9, 10, 11, 12, 13, 14, 15, 16, 17, 18, 19, 20];
    let local = [0xAAu8; 20];
    let id = generate_neighbor_target(&remote, &local);
    assert_eq!(id.len(), 20);
    assert_eq!(&id[..6], &remote[..6]);
    assert_eq!(&id[6..], &local[6..]);
    // A short local id: the rest is random, up to 20 bytes.
    let id = generate_neighbor_target(&remote, &[9, 9, 9]);
    assert_eq!(id.len(), 20);
    assert_eq!(&id[..6], &remote[..6]);
    // A short remote id gives a shorter prefix.
    let id = generate_neighbor_target(&[7, 7], &local);
    assert_eq!(id, [&[7u8, 7][..], &local[2..]].concat());
    assert_eq!(generate_random_id().len(), 20);
    // A long local id still gives 20 bytes.
    let long_local = [0x55u8; 32];
    let id = generate_neighbor_target(&remote, &long_local);
    assert_eq!(id.len(), 20);
    assert_eq!(&id[..6], &remote[..6]);
    assert_eq!(&id[6..], &long_local[6..20]);
}

#[test]
fn find_node_query_bytes() {
    let target = [3u8; 20];
    let sender = [4u8; 20];
    let bytes = find_node_message(&target, &sender).unwrap();
    let d = decode_dict(&bytes);
    assert_eq!(bytes_of(&d[&b"t".to_vec()]), vec![0, 1]);
    assert_eq!(bytes_of(&d[&b"y".to_vec()]), b"q".to_vec());
    assert_eq!(bytes_of(&d[&b"q".to_vec()]), b"find_node".to_vec());
    match &d[&b"a".to_vec()] {
        Value::Dict(a) => {
            assert_eq!(bytes_of(&a[&b"id".to_vec()]), sender.to_vec());
            assert_eq!(bytes_of(&a[&b"target".to_vec()]), target.to_vec());
        }
        _ => panic!("no arguments"),
    }
    // Keys come sorted.
    assert!(bytes.starts_with(b"d1:ad2:id20:"));
}

#[test]
fn crawl_query_uses_neighbor_id() {
    let n = NodeTuple { id: vec![5u8; 20], addr: v4(1, 2, 3, 4, 5) };
    let local = [0x11u8; 20];
    let bytes = crawl_query(&n, &local).unwrap();
    let d = decode_dict(&bytes);
    match &d[&b"a".to_vec()] {
        Value::Dict(a) => {
            let id = bytes_of(&a[&b"id".to_vec()]);
            assert_eq!(&id[..6], &[5u8; 6]);
            assert_eq!(&id[6..], &local[6..]);
            assert_eq!(bytes_of(&a[&b"target".to_vec()]).len(), 20);
        }
        _ => panic!("no arguments"),
    }
}

#[test]
fn reply_bytes_with_nodes() {
    let bytes = reply_message(b"aa", &[1u8; 20], &[2u8; 8], Some((false, vec![9u8; 26]))).unwrap();
    let d = decode_dict(&bytes);
    assert_eq!(bytes_of(&d[&b"t".to_vec()]), b"aa".to_vec());
    assert_eq!(bytes_of(&d[&b"y".to_vec()]), b"r".to_vec());
    match &d[&b"r".to_vec()] {
        Value::Dict(r) => {
            assert_eq!(bytes_of(&r[&b"id".to_vec()]), vec![1u8; 20]);
            assert_eq!(bytes_of(&r[&b"token".to_vec()]), vec![2u8; 8]);
            assert_eq!(bytes_of(&r[&b"nodes".to_vec()]), vec![9u8; 26]);
            assert!(!r.contains_key(&b"nodes6".to_vec()));
        }
        _ => panic!("no reply dictionary"),
    }
    let bytes = reply_message(b"b", &[1u8; 20], &[2u8; 8], None).unwrap();
    match &decode_dict(&bytes)[&b"r".to_vec()] {
        Value::Dict(r) => assert_eq!(r.len(), 2),
        _ => panic!("no reply dictionary"),
    }
}

#[test]
fn messages_are_routed_by_type() {
    let mut m = DhtMessage { t: vec![1], y: "q".to_string(), q: Some("ping".to_string()), a: None, r: None };
    assert_eq!(route_message(&m), MessageRoute::Query);
    m.q = None;
    assert_eq!(route_message(&m), MessageRoute::Ignore);
    m.y = "r".to_string();
    assert_eq!(route_message(&m), MessageRoute::Ignore);
    m.r = Some(DhtResponse { id: None, nodes: None, nodes6: None });
    assert_eq!(route_message(&m), MessageRoute::Response);
    m.y = "e".to_string();
    assert_eq!(route_message(&m), MessageRoute::Ignore);
}

#[test]
fn announce_port_rules() {
    let mut a = args();
    assert_eq!(announce_port(&a, 5000), 5000);
    a.port = Some(6000);
    assert_eq!(announce_port(&a, 5000), 6000);
    a.implied_port = Some(1);
    assert_eq!(announce_port(&a, 5000), 5000);
    a.implied_port = Some(0);
    assert_eq!(announce_port(&a, 5000), 6000);
    a.port = None;
    assert_eq!(announce_port(&a, 5000), 0);
}

#[test]
fn announce_needs_valid_token_and_hash() {
    let mut a = args();
    let from = v4(8, 8, 8, 8, 7000);
    a.info_hash = Some(vec![0xab; 20]);
    assert!(announce_from(&a, &from, true).is_none());
    a.token = Some(vec![1; 8]);
    assert!(announce_from(&a, &from, false).is_none());
    let (hex, peer) = announce_from(&a, &from, true).unwrap();
    assert_eq!(hex, "ab".repeat(20));
    assert_eq!(peer, from);
    a.info_hash = Some(vec![0xab; 19]);
    assert!(announce_from(&a, &from, true).is_none());
}

#[test]
fn announced_hash_decodes_back() {
    let mut a = args();
    let hash: Vec<u8> = (0u8..20).map(|i| i * 13).collect();
    a.info_hash = Some(hash.clone());
    a.token = Some(vec![0; 8]);
    let (hex, _) = announce_from(&a, &v4(1, 1, 1, 1, 1), true).unwrap();
    assert_eq!(hex, hash.iter().map(|b| format!("{:02x}", b)).collect::<String>());
    assert_eq!(info_hash_bytes(&hex).unwrap().to_vec(), hash);
    assert_eq!(info_hash_bytes(&hex.to_uppercase()).unwrap().to_vec(), hash);
    assert!(info_hash_bytes("abc").is_none());
    assert!(info_hash_bytes(&"zz".repeat(20)).is_none());
    assert!(info_hash_bytes(&"ab".repeat(19)).is_none());
}

#[test]
fn discovered_event_needs_a_port() {
    assert!(discovered_event("aa".to_string(), v4(1, 1, 1, 1, 0)).is_none());
    let e = discovered_event("aa".to_string(), v4(1, 1, 1, 1, 9)).unwrap();
    assert_eq!(e.info_hash, "aa");
    assert_eq!(e.peer_addr, v4(1, 1, 1, 1, 9));
}

#[test]
fn tokens_validate_for_their_address() {
    let core = DhtCore::from_parts(NetMode::Ipv4Only, vec![1; 20], vec![2; 10]);
    let addr = v4(10, 0, 0, 1, 1234);
    let token = core.generate_token(&addr);
    assert_eq!(token.len(), 8);
    assert!(core.validate_token(&token, &addr));
    // The port plays no part.
    assert!(core.validate_token(&token, &v4(10, 0, 0, 1, 9)));
    assert!(!core.validate_token(&token[..7], &addr));
    let other = core.generate_token(&v4(10, 0, 0, 2, 1234));
    assert_ne!(token, other);
    assert!(token_matches(&token, &token));
    assert!(!token_matches(&token, &other));
    let mut a = args();
    a.info_hash = Some(vec![1; 20]);
    a.token = Some(token.clone());
    assert!(core.handle_announce_peer(&a, &addr).is_some());
    a.token = Some(other);
    assert!(core.handle_announce_peer(&a, &addr).is_none());
}

#[test]
fn new_core_has_fresh_identity() {
    let core = DhtCore::new(NetMode::DualStack);
    assert_eq!(core.node_id().len(), 20);
    assert_eq!(core.netmode(), NetMode::DualStack);
}

#[test]
fn response_nodes_enter_the_pool() {
    let core = DhtCore::from_parts(NetMode::Ipv4Only, vec![1; 20], vec![2; 10]);
    let mut q = ShardedNodeQueue::new(1000);
    let mut rec = vec![5u8; 20];
    rec.extend_from_slice(&[1, 2, 3, 4, 0, 80]);
    let resp = DhtResponse { id: None, nodes: Some(rec), nodes6: Some(vec![0u8; 38]) };
    core.handle_response(&mut q, &resp);
    assert_eq!(q.len(), 1);
}

#[test]
fn build_response_adds_nodes_for_find_node() {
    let core = DhtCore::from_parts(NetMode::Ipv4Only, vec![0x42; 20], vec![2; 10]);
    let mut q = ShardedNodeQueue::new(1000);
    q.push(NodeTuple { id: vec![5; 20], addr: v4(1, 2, 3, 4, 80) });
    let remote = v4(9, 9, 9, 9, 99);
    let sender = vec![0x77u8; 20];
    let bytes = core.build_response(&q, b"tt", &remote, "find_node", Some(&sender), None).unwrap();
    let d = decode_dict(&bytes);
    match &d[&b"r".to_vec()] {
        Value::Dict(r) => {
            let id = bytes_of(&r[&b"id".to_vec()]);
            assert_eq!(&id[..6], &[0x77u8; 6]);
            assert_eq!(&id[6..], &[0x42u8; 14]);
            let nodes = bytes_of(&r[&b"nodes".to_vec()]);
            assert_eq!(nodes.len(), 26);
            assert_eq!(&nodes[20..], &[1, 2, 3, 4, 0, 80]);
            let token = bytes_of(&r[&b"token".to_vec()]);
            assert!(core.validate_token(&token, &remote));
        }
        _ => panic!("no reply dictionary"),
    }
    let bytes = core.build_response(&q, b"tt", &remote, "ping", None, None).unwrap();
    match &decode_dict(&bytes)[&b"r".to_vec()] {
        Value::Dict(r) => {
            assert_eq!(bytes_of(&r[&b"id".to_vec()]), vec![0x42u8; 20]);
            assert!(!r.contains_key(&b"nodes".to_vec()));
        }
        _ => panic!("no reply dictionary"),
    }
}

#[test]
fn mode_helpers() {
    assert_eq!(queue_filter(NetMode::Ipv4Only), Some(false));
    assert_eq!(queue_filter(NetMode::Ipv6Only), Some(true));
    assert_eq!(queue_filter(NetMode::DualStack), None);
    assert!(bootstrap_accepts(NetMode::Ipv4Only, false));
    assert!(!bootstrap_accepts(NetMode::Ipv4Only, true));
    assert!(bootstrap_accepts(NetMode::Ipv6Only, true));
    assert!(bootstrap_accepts(NetMode::DualStack, true));
    let b = bind_addresses(NetMode::DualStack, 6881);
    assert_eq!(b.len(), 2);
    assert_eq!(b[0], v4(0, 0, 0, 0, 6881));
    assert!(b[1].is_ipv6());
    assert_eq!(bind_addresses(NetMode::Ipv6Only, 1).len(), 1);
}

#[test]
fn pressure_thresholds() {
    assert_eq!(pressure_step(0, 100), (200, 10));
    assert_eq!(pressure_step(79, 100), (200, 10));
    assert_eq!(pressure_step(80, 100), (20, 500));
    assert_eq!(pressure_step(94, 100), (20, 500));
    assert_eq!(pressure_step(95, 100), (0, 1000));
    assert_eq!(pressure_step(0, 0), (0, 1000));
    assert_eq!(pressure_step(usize::MAX, usize::MAX), (0, 1000));
}

#[test]
fn crawl_turns() {
    let mut q = ShardedNodeQueue::new(1000);
    let t = crawl_turn(&mut q, NetMode::Ipv4Only, 0, 100, 0);
    assert!(t.nodes.is_none());
    assert!(t.bootstrap);
    assert_eq!(t.sleep_ms, 10);
    assert_eq!(t.tick, 1);
    q.push(NodeTuple { id: vec![1; 20], addr: v4(1, 1, 1, 1, 1) });
    let t = crawl_turn(&mut q, NetMode::Ipv4Only, 0, 100, 1);
    assert_eq!(t.nodes.as_ref().unwrap().len(), 1);
    assert!(!t.bootstrap);
    q.push(NodeTuple { id: vec![1; 20], addr: v4(1, 1, 1, 1, 1) });
    let t = crawl_turn(&mut q, NetMode::Ipv4Only, 0, 100, 49);
    assert!(t.nodes.is_some());
    assert!(t.bootstrap);
    assert_eq!(t.tick, 50);
    q.push(NodeTuple { id: vec![1; 20], addr: v4(1, 1, 1, 1, 1) });
    let t = crawl_turn(&mut q, NetMode::Ipv4Only, 99, 100, 5);
    assert!(t.nodes.is_none());
    assert_eq!(t.sleep_ms, 1000);
    assert_eq!(q.len(), 1);
    let t = crawl_turn(&mut q, NetMode::Ipv6Only, 0, 100, u64::MAX);
    assert!(t.nodes.is_none());
    assert_eq!(t.tick, 0);
    assert!(t.bootstrap);
}

#[test]
fn packet_checks() {
    assert!(matches!(check_packet(8193, Some(b'd')), Err(ProcessUdpPacketError::PacketTooLarge)));
    assert!(matches!(check_packet(0, None), Err(ProcessUdpPacketError::InvalidPacket)));
    assert!(matches!(check_packet(10, Some(b'x')), Err(ProcessUdpPacketError::InvalidPacket)));
    assert!(check_packet(8192, Some(b'd')).is_ok());
}

#[test]
fn dispatch_round_robin() {
    let mut d = PacketDispatch::new(1, 2);
    assert_eq!(d.on_outcome(SendOutcome::Sent), DispatchStep::Delivered);
    // The next packet goes to the next worker.
    assert_eq!(d.worker_index(), 0);
    let mut d = PacketDispatch::new(0, 3);
    assert_eq!(d.on_outcome(SendOutcome::Full), DispatchStep::Retry);
    assert_eq!(d.worker_index(), 1);
    assert_eq!(d.on_outcome(SendOutcome::Full), DispatchStep::Retry);
    assert_eq!(d.on_outcome(SendOutcome::Full), DispatchStep::Retry);
    assert_eq!(d.worker_index(), 0);
    // Workers 1 and 2 were full since the last pass through worker 0, and
    // worker 0 is full again: every worker is choked.
    assert_eq!(d.on_outcome(SendOutcome::Full), DispatchStep::Fail(ProcessUdpPacketError::ChokedWorkers));
    let mut d = PacketDispatch::new(1, 2);
    assert_eq!(d.on_outcome(SendOutcome::Full), DispatchStep::Retry);
    assert_eq!(d.worker_index(), 0);
    assert_eq!(d.on_outcome(SendOutcome::Full), DispatchStep::Fail(ProcessUdpPacketError::ChokedWorkers));
    let mut d = PacketDispatch::new(1, 2);
    assert_eq!(d.on_outcome(SendOutcome::Closed), DispatchStep::RemoveAndRetry(1));
    assert_eq!(d.workers(), 1);
    assert_eq!(d.worker_index(), 0);
    assert_eq!(d.on_outcome(SendOutcome::Closed), DispatchStep::RemoveAndFail(0));
    assert_eq!(d.workers(), 0);
}

#[test]
fn queries_are_answered_and_announces_checked() {
    let core = DhtCore::from_parts(NetMode::Ipv4Only, vec![0x42; 20], vec![2; 10]);
    let q = ShardedNodeQueue::new(1000);
    let remote = v4(7, 7, 7, 7, 4000);
    let mut a = args();
    a.info_hash = Some(vec![0xcd; 20]);
    a.token = Some(core.generate_token(&remote));
    a.port = Some(5555);
    let msg = DhtMessage { t: b"xy".to_vec(), y: "q".to_string(), q: Some("announce_peer".to_string()), a: Some(a), r: None };
    let out = core.handle_query(&q, &msg, "announce_peer", &remote);
    let (hex, peer) = out.announced.unwrap();
    assert_eq!(hex, "cd".repeat(20));
    assert_eq!(peer, v4(7, 7, 7, 7, 5555));
    let d = decode_dict(&out.reply.unwrap());
    assert_eq!(bytes_of(&d[&b"t".to_vec()]), b"xy".to_vec());
    match &d[&b"r".to_vec()] {
        Value::Dict(r) => {
            // No sender id: the reply's id is near the info hash asked for.
            let id = bytes_of(&r[&b"id".to_vec()]);
            assert_eq!(&id[..6], &[0xcdu8; 6]);
        }
        _ => panic!("no reply dictionary"),
    }
    // The same arguments under another query name announce nothing.
    let out = core.handle_query(&q, &msg, "get_peers", &remote);
    assert!(out.announced.is_none());
    assert!(out.reply.is_some());
    // Without arguments nothing is answered.
    let bare = DhtMessage { t: vec![1], y: "q".to_string(), q: Some("ping".to_string()), a: None, r: None };
    let out = core.handle_query(&q, &bare, "ping", &remote);
    assert!(out.announced.is_none() && out.reply.is_none());
}
