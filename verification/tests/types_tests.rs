use dht_crawler::error::ensure_running;
use dht_crawler::metadata::RbitFetcher;
use dht_crawler::types::{dht_options_from_java, format_bytes};
use dht_crawler::{DHTError, DHTOptions, FileInfo, NetMode, TorrentInfo};

/// The size text as the float formatting of the size in the largest unit
/// below 1024 writes it.
fn float_format(bytes: u64) -> String {
    let units = ["B", "KB", "MB", "GB", "TB"];
    let mut size = bytes as f64;
    let mut unit = 0;
    while size >= 1024.0 && unit < units.len() - 1 {
        size /= 1024.0;
        unit += 1;
    }
    format!("{:.2} {}", size, units[unit])
}

#[test]
fn format_bytes_small_values() {
    assert_eq!(format_bytes(0), "0.00 B");
    assert_eq!(format_bytes(1), "1.00 B");
    assert_eq!(format_bytes(1023), "1023.00 B");
}

#[test]
fn format_bytes_unit_steps() {
    assert_eq!(format_bytes(1024), "1.00 KB");
    assert_eq!(format_bytes(1536), "1.50 KB");
    assert_eq!(format_bytes(1024 * 1024), "1.00 MB");
    assert_eq!(format_bytes(1024 * 1024 * 1024), "1.00 GB");
    assert_eq!(format_bytes(1024u64.pow(4)), "1.00 TB");
    assert_eq!(format_bytes(1024u64.pow(5)), "1024.00 TB");
}

#[test]
fn format_bytes_rounds_half_to_even() {
    // 1.125 KB is exact in binary: the two-digit text rounds it to even.
    assert_eq!(format!("{:.2}", 1.125f64), "1.12");
    assert_eq!(format_bytes(1152), "1.12 KB");
    assert_eq!(format_bytes(1152), float_format(1152));
    assert_eq!(format_bytes(1163), float_format(1163));
}

#[test]
fn format_bytes_largest_value() {
    assert_eq!(format_bytes(u64::MAX), float_format(u64::MAX));
    assert_eq!(format_bytes(u64::MAX), "16777216.00 TB");
}

#[test]
fn format_bytes_agrees_with_float_formatting() {
    let mut x: u64 = 0x9e37_79b9_7f4a_7c15;
    for i in 0..3000u64 {
        x ^= x << 13;
        x ^= x >> 7;
        x ^= x << 17;
        let shift = i % 64;
        let v = x >> shift;
        assert_eq!(format_bytes(v), float_format(v), "value {}", v);
    }
    for v in 0..5000u64 {
        assert_eq!(format_bytes(v), float_format(v), "value {}", v);
    }
}

#[test]
fn format_size_of_torrent_and_file() {
    let f = FileInfo { path: "a/b.txt".to_string(), size: 2048 };
    assert_eq!(f.format_size(), "2.00 KB");
    let t = TorrentInfo {
        info_hash: "00".repeat(20),
        magnet_link: String::new(),
        name: "x".to_string(),
        total_size: 3 * 1024 * 1024,
        files: vec![f],
        piece_length: 0,
        peers: vec![],
        timestamp: 0,
    };
    assert_eq!(t.format_size(), "3.00 MB");
}

#[test]
fn fetcher_timeout_defaults_to_fifteen() {
    assert_eq!(RbitFetcher::new(0).timeout_secs(), 15);
    assert_eq!(RbitFetcher::new(7).timeout_secs(), 7);
}

#[test]
fn default_options() {
    let o = DHTOptions::default();
    assert_eq!(o.port, 6881);
    assert!(o.auto_metadata);
    assert_eq!(o.metadata_timeout, 3);
    assert_eq!(o.max_metadata_queue_size, 100000);
    assert_eq!(o.max_metadata_worker_count, 1000);
    assert_eq!(o.netmode, NetMode::DualStack);
    assert_eq!(o.node_queue_capacity, 100000);
    assert_eq!(o.hash_queue_capacity, 10000);
    assert_eq!(NetMode::default(), NetMode::DualStack);
}

#[test]
fn options_from_java_fields() {
    let o = dht_options_from_java(70000, 5, 10, 20, 30, 40, 1);
    assert_eq!(o.port, 70000u32 as u16);
    assert_eq!(o.metadata_timeout, 5);
    assert_eq!(o.max_metadata_queue_size, 10);
    assert_eq!(o.max_metadata_worker_count, 20);
    assert_eq!(o.node_queue_capacity, 30);
    assert_eq!(o.hash_queue_capacity, 40);
    assert_eq!(o.netmode, NetMode::Ipv6Only);
    assert!(o.auto_metadata);
    let o = dht_options_from_java(-1, -1, -1, 0, 0, 0, 0);
    assert_eq!(o.port, 65535);
    assert_eq!(o.metadata_timeout, u64::MAX);
    assert_eq!(o.max_metadata_queue_size, usize::MAX);
    assert_eq!(o.netmode, NetMode::Ipv4Only);
    assert_eq!(NetMode::from_ordinal(7), NetMode::DualStack);
    assert_eq!(NetMode::from_ordinal(-3), NetMode::DualStack);
}

#[test]
fn errors_and_messages() {
    let e = DHTError::from(std::io::Error::new(std::io::ErrorKind::Other, "boom"));
    assert!(matches!(e, DHTError::Network(_)));
    let m = e.message();
    assert!(m.starts_with("网络错误: "));
    assert!(m.ends_with("boom"));
    let o = DHTError::Other("x".to_string());
    assert_eq!(o.message(), "x");
    assert!(ensure_running(false).is_ok());
    match ensure_running(true) {
        Err(DHTError::Other(m)) => assert_eq!(m, "服务器已关闭"),
        _ => panic!("expected a refusal"),
    }
}
