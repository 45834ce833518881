use peer_overlay::config::{
    advertised_address, make_address, parse_u32, random_client_url, u64_to_string, PeerConfig,
};
use peer_overlay::logger::Logger;
use peer_overlay::queues::{BlocksQueue, DbQueue, FeedbackQueue, LastHash, LazyClients};

#[test]
fn numbers_print_and_parse() {
    assert_eq!(u64_to_string(0), "0");
    assert_eq!(u64_to_string(7001), "7001");
    assert_eq!(u64_to_string(18446744073709551615), "18446744073709551615");
    assert_eq!(parse_u32("0"), Some(0));
    assert_eq!(parse_u32("7001"), Some(7001));
    assert_eq!(parse_u32(u64_to_string(4294967295).as_str()), Some(4294967295));
    assert_eq!(parse_u32("4294967296"), None);
    assert_eq!(parse_u32(""), None);
    assert_eq!(parse_u32("12a"), None);
    assert_eq!(parse_u32("-5"), None);
}

#[test]
fn addresses_follow_the_template() {
    assert_eq!(make_address("0.0.0.0", 7001), "0.0.0.0:7001");
    assert_eq!(advertised_address(0, "peers.internal", 7002), "peers.internal:7002");
    assert_eq!(advertised_address(3, "peers.internal", 7002), "3.peers.internal:7002");
}

#[test]
fn random_candidates_stay_in_range() {
    let config = PeerConfig {
        host: "0.0.0.0".to_string(),
        port: 7001,
        thread_pool: 2,
        out_name: "peers.internal".to_string(),
        out_sub_name: 0,
        out_port: 7001,
        min_ref: 1,
        max_ref: 4,
        peer_connections: 3,
        committee_size: 2,
        keys_path: "./keys".to_string(),
    };
    for _ in 0..20 {
        let url = random_client_url(&config);
        let (name, port) = url.split_once(':').unwrap();
        assert_eq!(name, "peers.internal");
        let port: u32 = port.parse().unwrap();
        assert!((7001..=7004).contains(&port));
    }
}

#[test]
fn blocks_queue_is_first_in_first_out() {
    let mut q = BlocksQueue::new();
    assert!(q.get_block().is_none());
    q.add_block("h1".to_string(), "o1".to_string(), "f1".to_string(), "d1".to_string());
    q.add_block("h2".to_string(), "o2".to_string(), "f2".to_string(), "d2".to_string());
    let (h, o, f, d) = q.get_block().unwrap();
    assert_eq!((h.as_str(), o.as_str(), f.as_str(), d.as_str()), ("h1", "o1", "f1", "d1"));
    let (h, _, _, _) = q.get_block().unwrap();
    assert_eq!(h, "h2");
    assert!(q.get_block().is_none());
}

#[test]
fn db_queue_keeps_the_newest_entry_per_creator() {
    let mut q = DbQueue::new();
    assert!(q.get_last("c").is_none());
    q.add_block("c".to_string(), None, 5);
    q.add_block("c".to_string(), Some(("h".to_string(), "o".to_string(), "p".to_string())), 9);
    q.add_block("other".to_string(), None, 1);
    assert_eq!(q.entries_count("c"), 2);
    let (data, ts) = q.get_last("c").unwrap();
    assert_eq!(ts, 9);
    assert_eq!(data.unwrap().0, "h");
}

#[test]
fn feedback_targets_resolve_once() {
    let mut q = FeedbackQueue::new();
    q.add_block("hash1".to_string(), "target1".to_string());
    q.add_block("hash1".to_string(), "target2".to_string());
    assert_eq!(q.get_block("hash1").unwrap(), "target2");
    assert!(q.get_block("hash1").is_none());
    assert!(q.get_block("never").is_none());
}

#[test]
fn last_hash_starts_from_the_placeholder() {
    let mut h = LastHash::new();
    assert_eq!(h.get(), "RGVmYXVsdEhhc2g");
    h.set("abc".to_string());
    assert_eq!(h.get(), "abc");
}

#[test]
fn connectivity_log_drains_in_order() {
    let mut log = LazyClients::new();
    log.add("peer:1".to_string());
    log.remove("peer:2".to_string());
    let drained = log.get();
    assert_eq!(
        drained,
        vec![("peer:1".to_string(), true), ("peer:2".to_string(), false)]
    );
    assert!(log.get().is_empty());
}

#[test]
fn log_colors_stay_in_the_palette() {
    for tag in ["server", "client", "db", "synchronizer", "consumer", ""] {
        let code = Logger::color_code_for(tag);
        assert!((31..=36).contains(&code));
    }
    assert_eq!(Logger::color_code_for("server"), Logger::color_code_for("server"));
}
