use peer_overlay::network::{blake3_hash, elect_committee, ManagerNetwork};
use peer_overlay::queues::{BlocksQueue, FeedbackQueue};
use peer_overlay::registry::ManagerClient;
use peer_overlay::synchronizer::Synchronizer;

/// The election hash a node gets under a seed, as the view computes it:
/// the digest of seed then identity bytes, first eight bytes little-endian.
fn hash_for(seed: &[u8], id: &str) -> u64 {
    let mut buf = seed.to_vec();
    buf.extend_from_slice(id.as_bytes());
    let digest = blake3_hash(buf.as_slice());
    let mut v: u64 = 0;
    let mut i = 8;
    while i > 0 {
        i -= 1;
        v = (v << 8) | digest[i] as u64;
    }
    v
}

#[test]
fn concrete_three_node_election() {
    // normalized hash values 0.10, 0.05, 0.90 against stakes 50, 30, 20:
    // scores 0.20, 0.1667, 4.5, so the two lowest are B then A.
    let h_a = u64::MAX / 10;
    let h_b = u64::MAX / 20;
    let h_c = u64::MAX / 10 * 9;
    let candidates = vec![
        ("A".to_string(), h_a, 50),
        ("B".to_string(), h_b, 30),
        ("C".to_string(), h_c, 20),
    ];
    let committee = elect_committee(&candidates, 2);
    assert_eq!(committee, vec!["A".to_string(), "B".to_string()]);
}

#[test]
fn election_is_deterministic() {
    let candidates = vec![
        ("n1".to_string(), 123456789u64, 10),
        ("n2".to_string(), 987654321u64, 90),
        ("n3".to_string(), 5555555u64, 40),
    ];
    let first = elect_committee(&candidates, 2);
    let second = elect_committee(&candidates, 2);
    assert_eq!(first, second);

    let mut net1 = ManagerNetwork::new();
    let mut net2 = ManagerNetwork::new();
    for net in [&mut net1, &mut net2] {
        net.insert_node("node:1".to_string(), 30, 0, 0);
        net.insert_node("node:2".to_string(), 60, 0, 0);
        net.insert_node("node:3".to_string(), 10, 0, 0);
    }
    net1.choose_committee(2);
    net2.choose_committee(2);
    assert_eq!(net1.get_committee(), net2.get_committee());
}

#[test]
fn equal_hashes_favour_the_larger_stake() {
    // with the same election hash the higher stake has the lower score
    let h = 1_000_000u64;
    let candidates = vec![("p".to_string(), h, 30), ("q".to_string(), h, 70)];
    assert_eq!(elect_committee(&candidates, 1), vec!["q".to_string()]);
    // an exact tie falls to the earlier candidate
    let tied = vec![("a".to_string(), h, 50), ("b".to_string(), h, 50)];
    assert_eq!(elect_committee(&tied, 1), vec!["a".to_string()]);
}

#[test]
fn committee_round_without_ready_block_proposes_empty() {
    let mut net = ManagerNetwork::new();
    let sync = Synchronizer::new("self:1".to_string(), 1, 3, &mut net);
    let mut registry = ManagerClient::new();
    registry.add_client("peer:1".to_string());
    let mut blocks = BlocksQueue::new();
    let mut feedback = FeedbackQueue::new();
    let outcome = sync.committee_round(&mut net, &registry, &mut blocks, &mut feedback, 12);
    let out = outcome.expect("sole node must be elected").unwrap();
    // a payload-less proposal still goes out; nothing was dequeued
    assert_eq!(out.recipients, vec!["peer:1".to_string()]);
    assert!(blocks.get_block().is_none());
}

#[test]
fn stakes_stay_within_bounds_across_rounds() {
    let mut net = ManagerNetwork::new();
    net.insert_node("node:1".to_string(), 1, 0, 0);
    net.insert_node("node:2".to_string(), 100, 0, 0);
    net.insert_node("node:3".to_string(), 55, 7, 3);
    for _ in 0..25 {
        net.choose_committee(2);
        for (_, stake) in net.get_all_nodes() {
            assert!(1 <= stake && stake <= 100);
        }
    }
}

#[test]
fn selection_frequency_tracks_stake() {
    // over many independent seeds the 99-stake node must win far more
    // often than the 1-stake node
    let mut high_wins = 0;
    for t in 0..200u32 {
        let seed = blake3_hash(format!("trial{}", t).as_bytes());
        let h_high = hash_for(seed.as_slice(), "high");
        let h_low = hash_for(seed.as_slice(), "low");
        let candidates = vec![
            ("high".to_string(), h_high, 99),
            ("low".to_string(), h_low, 1),
        ];
        let committee = elect_committee(&candidates, 1);
        if committee == vec!["high".to_string()] {
            high_wins += 1;
        }
    }
    assert!(high_wins > 120, "high-stake node won only {} of 200", high_wins);
}

#[test]
fn committee_round_elects_and_proposes() {
    let mut net = ManagerNetwork::new();
    let sync = Synchronizer::new("self:1".to_string(), 1, 3, &mut net);
    assert!(net.exists_node("self:1"));
    let n = net.get_node("self:1").unwrap();
    assert_eq!((n.stake, n.reward, n.penalty), (50, 0, 0));

    let mut registry = ManagerClient::new();
    registry.add_client("peer:1".to_string());
    let mut blocks = BlocksQueue::new();
    blocks.add_block(
        "bh".to_string(),
        "borg".to_string(),
        "bfeed".to_string(),
        "bdata".to_string(),
    );
    let mut feedback = FeedbackQueue::new();

    // the only node in the view must elect itself
    let outcome = sync.committee_round(&mut net, &registry, &mut blocks, &mut feedback, 12);
    let out = outcome.expect("sole node must be elected").unwrap();
    assert_eq!(out.recipients, vec!["peer:1".to_string()]);
    assert_eq!(net.get_committee(), vec!["self:1".to_string()]);
    // the dequeued block registered its feedback target
    assert_eq!(feedback.get_block("bh").unwrap(), "bfeed");
    assert!(blocks.get_block().is_none());
}

#[test]
fn missing_nodes_are_committee_minus_received() {
    let mut net = ManagerNetwork::new();
    net.insert_node("node:1".to_string(), 50, 0, 0);
    net.insert_node("node:2".to_string(), 50, 0, 0);
    net.choose_committee(2);
    assert_eq!(net.get_committee().len(), 2);
    net.mark_received("node:1".to_string());
    let missing = net.missing_nodes();
    assert_eq!(missing, vec!["node:2".to_string()]);
}

#[test]
fn view_merge_takes_maxima() {
    let mut a = ManagerNetwork::new();
    a.insert_node("n".to_string(), 10, 5, 9);
    let mut b = ManagerNetwork::new();
    b.insert_node("n".to_string(), 20, 1, 2);
    b.insert_node("m".to_string(), 33, 0, 0);
    a.perform_maintenance(b);
    let n = a.get_node("n").unwrap();
    assert_eq!((n.stake, n.reward, n.penalty), (20, 5, 9));
    let m = a.get_node("m").unwrap();
    assert_eq!((m.stake, m.reward, m.penalty), (33, 0, 0));
}

#[test]
fn remove_node_forgets_only_that_identity() {
    let mut net = ManagerNetwork::new();
    net.insert_node("keep".to_string(), 40, 0, 0);
    net.insert_node("drop".to_string(), 60, 0, 0);
    net.remove_node("drop");
    assert!(net.exists_node("keep"));
    assert!(!net.exists_node("drop"));
}
