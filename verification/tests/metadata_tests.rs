use dht_crawler::bscan::{check_bencode, check_bencode_dict_prefix};
use bytes::Bytes;
use dht_crawler::metadata::{parse_torrent_info, MetadataSession, SessionAction};
use dht_crawler::scheduler::{torrent_info_from, SchedulerStats, TrySendOutcome};
use dht_crawler::FileInfo;
use rbit::{ExtensionHandshake, MetadataMessage};
use sha1::{Digest, Sha1};

const SINGLE: &[u8] = b"d6:lengthi12e4:name5:a.txt12:piece lengthi16384ee";

fn digest(data: &[u8]) -> [u8; 20] {
    let mut h = Sha1::new();
    h.update(data);
    h.finalize().into()
}

fn peer_handshake(ut_metadata: u8, size: Option<i64>) -> Vec<u8> {
    let mut hs = ExtensionHandshake::with_extensions(&[("ut_metadata", ut_metadata)]);
    hs.metadata_size = size;
    hs.encode().unwrap().to_vec()
}

fn data_message(piece: u32, total: u32, data: &[u8]) -> Vec<u8> {
    MetadataMessage::data(piece, total, Bytes::copy_from_slice(data)).encode().unwrap().to_vec()
}

#[test]
fn session_without_extension_fails() {
    let s = MetadataSession::new(digest(SINGLE));
    assert!(matches!(s.start(false), SessionAction::Fail));
}

#[test]
fn session_sends_own_handshake() {
    let s = MetadataSession::new(digest(SINGLE));
    match s.start(true) {
        SessionAction::SendHandshake(b) => {
            let expected = ExtensionHandshake::with_extensions(&[("ut_metadata", 1)]).encode().unwrap();
            assert_eq!(b, expected.to_vec());
        }
        other => panic!("unexpected {:?}", other),
    }
}

#[test]
fn session_fetches_and_checks_metadata() {
    let mut s = MetadataSession::new(digest(SINGLE));
    assert!(matches!(s.on_extended(5, b"whatever"), SessionAction::Continue));
    match s.on_extended(0, &peer_handshake(3, Some(SINGLE.len() as i64))) {
        SessionAction::SendRequests { ext_id, payloads } => {
            assert_eq!(ext_id, 3);
            assert_eq!(payloads.len(), 1);
            assert_eq!(payloads[0], MetadataMessage::request(0).encode().unwrap().to_vec());
        }
        other => panic!("unexpected {:?}", other),
    }
    // The requests go out once.
    assert!(matches!(s.on_extended(0, &peer_handshake(3, Some(SINGLE.len() as i64))), SessionAction::Continue));
    match s.on_extended(1, &data_message(0, SINGLE.len() as u32, SINGLE)) {
        SessionAction::Complete(data) => assert_eq!(data, SINGLE.to_vec()),
        other => panic!("unexpected {:?}", other),
    }
}

#[test]
fn session_rejects_wrong_metadata() {
    let mut s = MetadataSession::new([0u8; 20]);
    assert!(matches!(s.on_extended(0, &peer_handshake(2, Some(SINGLE.len() as i64))), SessionAction::SendRequests { .. }));
    assert!(matches!(s.on_extended(1, &data_message(0, SINGLE.len() as u32, SINGLE)), SessionAction::Fail));
}

#[test]
fn session_waits_for_all_pieces() {
    let big: Vec<u8> = (0..20000u32).map(|i| (i % 251) as u8).collect();
    let mut s = MetadataSession::new(digest(&big));
    match s.on_extended(0, &peer_handshake(4, Some(big.len() as i64))) {
        SessionAction::SendRequests { payloads, .. } => assert_eq!(payloads.len(), 2),
        other => panic!("unexpected {:?}", other),
    }
    assert!(matches!(s.on_extended(1, &data_message(1, 20000, &big[16384..])), SessionAction::Continue));
    match s.on_extended(1, &data_message(0, 20000, &big[..16384])) {
        SessionAction::Complete(data) => assert_eq!(data, big),
        other => panic!("unexpected {:?}", other),
    }
}

#[test]
fn session_refuses_oversized_metadata() {
    let mut s = MetadataSession::new([0u8; 20]);
    assert!(matches!(s.on_extended(0, &peer_handshake(2, Some(10 * 1024 * 1024 + 1))), SessionAction::Fail));
    let mut s = MetadataSession::new([0u8; 20]);
    // The size alone, without the peer's id, asks nothing yet.
    assert!(matches!(s.on_extended(0, &peer_handshake(0, Some(100))), SessionAction::Continue));
}

#[test]
fn parse_single_file_info() {
    let (name, total, files) = parse_torrent_info(SINGLE).unwrap();
    assert_eq!(name, "a.txt");
    assert_eq!(total, 12);
    assert_eq!(files.len(), 1);
    assert_eq!(files[0].path, "a.txt");
    assert_eq!(files[0].size, 12);
}

#[test]
fn parse_multi_file_info() {
    let info = b"d5:filesld6:lengthi3e4:pathl1:a1:beed6:lengthi4e4:pathl1:ceee4:name3:dire";
    let (name, total, files) = parse_torrent_info(info).unwrap();
    assert_eq!(name, "dir");
    assert_eq!(total, 7);
    assert_eq!(files.len(), 2);
    assert_eq!(files[0].path, "a/b");
    assert_eq!(files[0].size, 3);
    assert_eq!(files[1].path, "c");
    assert_eq!(files[1].size, 4);
}

#[test]
fn parse_rejects_empty_or_broken_info() {
    assert!(parse_torrent_info(b"d4:name1:xe").is_none());
    assert!(parse_torrent_info(b"d6:lengthi0e4:name1:xe").is_none());
    assert!(parse_torrent_info(b"not bencode").is_none());
    let (name, total, _) = parse_torrent_info(b"d6:lengthi5ee").unwrap();
    assert_eq!(name, "Unknown");
    assert_eq!(total, 5);
}

#[test]
fn scheduler_counters() {
    let mut s = SchedulerStats::new();
    assert!(s.on_hash(TrySendOutcome::Sent));
    assert!(s.on_hash(TrySendOutcome::Full));
    assert_eq!((s.received, s.dropped, s.queue_len), (2, 1, 1));
    s.on_dequeue();
    assert_eq!((s.dispatched, s.queue_len), (1, 0));
    assert_eq!(s.received, s.dropped + s.dispatched + s.queue_len as u64);
    assert!(!s.on_hash(TrySendOutcome::Closed));
    assert_eq!(s.received, 3);
    let mut w = SchedulerStats { received: u64::MAX, dropped: 0, dispatched: 0, queue_len: 0 };
    w.on_dequeue();
    assert_eq!(w.queue_len, usize::MAX);
    w.on_hash(TrySendOutcome::Sent);
    assert_eq!((w.received, w.queue_len), (0, 0));
}

#[test]
fn torrent_info_assembly() {
    let files = vec![FileInfo { path: "a".to_string(), size: 3 }];
    let t = torrent_info_from("ab".repeat(20), "n".to_string(), 3, files, "1.2.3.4:5".to_string(), 77);
    assert_eq!(t.magnet_link, format!("magnet:?xt=urn:btih:{}", "ab".repeat(20)));
    assert_eq!(t.info_hash, "ab".repeat(20));
    assert_eq!(t.peers, vec!["1.2.3.4:5".to_string()]);
    assert_eq!(t.piece_length, 0);
    assert_eq!(t.timestamp, 77);
    assert_eq!(t.total_size, 3);
    assert_eq!(t.files.len(), 1);
}

#[test]
fn crafted_bencode_is_refused_without_decoding() {
    let huge = b"d4:name99999999999999999999:xe";
    assert!(!check_bencode(huge));
    assert!(parse_torrent_info(huge).is_none());
    assert!(!check_bencode(b"di1e"));
    assert!(check_bencode(b"d1:ai1ee"));
    assert!(check_bencode(b"l4:spami-3ee"));
    assert!(!check_bencode(b"i1ei2e"));
    assert!(check_bencode_dict_prefix(b"d1:ai1eeRAW"));
    assert!(!check_bencode_dict_prefix(b"d1:a9999999999999999999:e"));
    let deep: Vec<u8> = std::iter::repeat(b'l').take(70).chain(std::iter::repeat(b'e').take(70)).collect();
    assert!(!check_bencode(&deep));
    let mut s = MetadataSession::new([0u8; 20]);
    assert!(matches!(s.on_extended(0, b"di1e"), SessionAction::Continue));
    assert!(matches!(s.on_extended(1, b"d1:a9999999999999999999:e"), SessionAction::Continue));
}
