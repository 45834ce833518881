use peer_overlay::handshake::AesEncryption;
use peer_overlay::interpreter::{handle_incoming, InterpreterConstruct, InterpreterError, TaskKind};
use peer_overlay::network::ManagerNetwork;
use peer_overlay::queues::DbQueue;
use peer_overlay::registry::ManagerClient;

fn block_from(creator: &str, from: &str) -> InterpreterConstruct {
    InterpreterConstruct {
        creator: creator.to_string(),
        from: from.to_string(),
        task: TaskKind::Block,
        data: Some(("hash1".to_string(), "org1".to_string(), "payload1".to_string())),
        created_at: 1000,
    }
}

#[test]
fn block_apply_is_idempotent() {
    let mut network = ManagerNetwork::new();
    let mut db = DbQueue::new();
    let msg = block_from("X", "relay:1");

    let first = msg.apply(&mut network, &mut db);
    assert!(first.is_ok());
    assert_eq!(db.entries_count("X"), 1);
    assert!(network.has_received("X"));

    let second = msg.apply(&mut network, &mut db);
    assert!(second.is_ok());
    assert_eq!(db.entries_count("X"), 1);

    let last = db.get_last("X").unwrap();
    let (data, ts) = last;
    assert_eq!(ts, 1000);
    let (h, o, p) = data.unwrap();
    assert_eq!(h, "hash1");
    assert_eq!(o, "org1");
    assert_eq!(p, "payload1");
}

#[test]
fn block_second_delivery_skips_regossip() {
    let mut network = ManagerNetwork::new();
    let mut db = DbQueue::new();
    let mut registry = ManagerClient::new();
    registry.add_client("peer:1".to_string());
    registry.add_client("peer:2".to_string());
    registry.add_client("peer:3".to_string());

    let msg = block_from("X", "relay:1");
    msg.apply(&mut network, &mut db).unwrap();
    assert_eq!(db.entries_count("X"), 1);

    let out = msg.distribute(&mut network, &registry, 3).unwrap();
    assert_eq!(out.recipients.len(), 0);
}

#[test]
fn block_distribute_bounds_fanout() {
    let mut network = ManagerNetwork::new();
    let mut registry = ManagerClient::new();
    registry.add_client("peer:1".to_string());
    registry.add_client("peer:2".to_string());
    registry.add_client("peer:3".to_string());
    registry.add_client("peer:4".to_string());
    registry.add_client("peer:5".to_string());

    let msg = block_from("X", "peer:5");
    let out = msg.distribute(&mut network, &registry, 6).unwrap();
    // fan-out size is max(2 * 6 / 3, 1) = 4; the creator is not connected,
    // so exactly 4 of the 4 eligible peers are drawn
    assert_eq!(out.recipients.len(), 4);
    for r in &out.recipients {
        assert_ne!(r, "X");
        assert_ne!(r, "peer:5");
    }

    // with a small budget the subset is exactly the budget
    let mut network = ManagerNetwork::new();
    let out = msg.distribute(&mut network, &registry, 3).unwrap();
    assert_eq!(out.recipients.len(), 2);
}

#[test]
fn maintain_flood_fires_at_most_once_per_round() {
    let mut network = ManagerNetwork::new();
    let mut registry = ManagerClient::new();
    registry.add_client("peer:1".to_string());
    registry.add_client("peer:2".to_string());

    let view_payload = ManagerNetwork::new().serialize();
    let msg = InterpreterConstruct {
        creator: "origin:1".to_string(),
        from: "relay:1".to_string(),
        task: TaskKind::Maintain,
        data: Some(("maintenance".to_string(), "job".to_string(), view_payload)),
        created_at: 5,
    };

    let first = msg.distribute(&mut network, &registry, 2).unwrap();
    assert_eq!(first.recipients.len(), 2);
    assert!(network.was_maintained_by("origin:1"));

    let second = msg.distribute(&mut network, &registry, 2).unwrap();
    assert_eq!(second.recipients.len(), 0);
}

#[test]
fn maintain_without_peers_is_an_error() {
    let mut network = ManagerNetwork::new();
    let registry = ManagerClient::new();
    let msg = InterpreterConstruct {
        creator: "origin:1".to_string(),
        from: "origin:1".to_string(),
        task: TaskKind::Maintain,
        data: None,
        created_at: 5,
    };
    let r = msg.distribute(&mut network, &registry, 2);
    match r {
        Ok(_) => panic!("a broadcast with no peers must fail"),
        Err(e) => assert_eq!(e, InterpreterError::NoConnectedClients),
    }
}

#[test]
fn relayed_sync_is_not_amplified() {
    let mut network = ManagerNetwork::new();
    let mut registry = ManagerClient::new();
    registry.add_client("peer:1".to_string());
    registry.add_client("peer:2".to_string());

    let msg = InterpreterConstruct {
        creator: "origin:1".to_string(),
        from: "relay:9".to_string(),
        task: TaskKind::Sync,
        data: Some(("missing".to_string(), "job".to_string(), String::new())),
        created_at: 7,
    };
    let out = msg.distribute(&mut network, &registry, 2).unwrap();
    assert_eq!(out.recipients.len(), 0);
}

#[test]
fn own_sync_reaches_all_peers() {
    let mut network = ManagerNetwork::new();
    let mut registry = ManagerClient::new();
    registry.add_client("peer:1".to_string());
    registry.add_client("peer:2".to_string());

    let msg = InterpreterConstruct {
        creator: "origin:1".to_string(),
        from: "origin:1".to_string(),
        task: TaskKind::Sync,
        data: Some(("missing".to_string(), "job".to_string(), String::new())),
        created_at: 7,
    };
    let out = msg.distribute(&mut network, &registry, 2).unwrap();
    let mut got = out.recipients.clone();
    got.sort();
    assert_eq!(got, vec!["peer:1".to_string(), "peer:2".to_string()]);
}

#[test]
fn resp_sync_is_never_regossiped() {
    let mut network = ManagerNetwork::new();
    let mut registry = ManagerClient::new();
    registry.add_client("peer:1".to_string());
    let msg = InterpreterConstruct {
        creator: "origin:1".to_string(),
        from: "Response".to_string(),
        task: TaskKind::RespSync,
        data: None,
        created_at: 3,
    };
    let out = msg.distribute(&mut network, &registry, 2).unwrap();
    assert_eq!(out.recipients.len(), 0);
}

#[test]
fn maintain_apply_merges_view_and_marks_creator() {
    let mut remote = ManagerNetwork::new();
    remote.insert_node("node:a".to_string(), 70, 3, 0);
    remote.insert_node("node:b".to_string(), 20, 0, 5);
    let payload = remote.serialize();

    let mut local = ManagerNetwork::new();
    local.insert_node("node:a".to_string(), 40, 9, 1);
    let mut db = DbQueue::new();

    let msg = InterpreterConstruct {
        creator: "node:b".to_string(),
        from: "node:b".to_string(),
        task: TaskKind::Maintain,
        data: Some(("maintenance".to_string(), "job".to_string(), payload)),
        created_at: 11,
    };
    let sends = msg.apply(&mut local, &mut db).unwrap();
    assert!(sends.is_empty());
    assert!(local.was_maintained_by("node:b"));

    // element-wise maximum for the shared identity, adoption of the new one
    let a = local.get_node("node:a").unwrap();
    assert_eq!((a.stake, a.reward, a.penalty), (70, 9, 1));
    let b = local.get_node("node:b").unwrap();
    assert_eq!((b.stake, b.reward, b.penalty), (20, 0, 5));
}

#[test]
fn maintain_apply_without_payload_is_missing_data() {
    let mut network = ManagerNetwork::new();
    let mut db = DbQueue::new();
    let msg = InterpreterConstruct {
        creator: "node:b".to_string(),
        from: "node:b".to_string(),
        task: TaskKind::Maintain,
        data: None,
        created_at: 11,
    };
    assert_eq!(msg.apply(&mut network, &mut db).unwrap_err(), InterpreterError::MissingData);
}

#[test]
fn maintain_apply_with_garbage_payload_is_malformed() {
    let mut network = ManagerNetwork::new();
    let mut db = DbQueue::new();
    let msg = InterpreterConstruct {
        creator: "node:b".to_string(),
        from: "node:b".to_string(),
        task: TaskKind::Maintain,
        data: Some(("maintenance".to_string(), "job".to_string(), "%%%".to_string())),
        created_at: 11,
    };
    assert_eq!(
        msg.apply(&mut network, &mut db).unwrap_err(),
        InterpreterError::MalformedPayload
    );
}

#[test]
fn sync_apply_answers_known_creators_point_to_point() {
    let mut network = ManagerNetwork::new();
    let mut db = DbQueue::new();
    db.add_block(
        "node:a".to_string(),
        Some(("h1".to_string(), "o1".to_string(), "p1".to_string())),
        50,
    );
    db.add_block(
        "node:a".to_string(),
        Some(("h2".to_string(), "o2".to_string(), "p2".to_string())),
        60,
    );

    let wanted = vec!["node:a".to_string(), "node:unknown".to_string()];
    let encoded = peer_overlay::codec::encode_str_list(&wanted);
    let payload = peer_overlay::network::b64_encode(encoded.as_slice());

    let msg = InterpreterConstruct {
        creator: "asker:1".to_string(),
        from: "asker:1".to_string(),
        task: TaskKind::Sync,
        data: Some(("missing".to_string(), "job".to_string(), payload)),
        created_at: 70,
    };
    let sends = msg.apply(&mut network, &mut db).unwrap();
    assert_eq!(sends.len(), 1);
    let (target, reply) = &sends[0];
    assert_eq!(target, "asker:1");
    assert_eq!(reply.creator, "node:a");
    assert_eq!(reply.from, "Response");
    assert_eq!(reply.task, TaskKind::RespSync);
    assert_eq!(reply.created_at, 60);
    let (h, _, p) = reply.data.clone().unwrap();
    assert_eq!(h, "h2");
    assert_eq!(p, "p2");
}

#[test]
fn handle_incoming_decrypts_and_applies() {
    let aes = AesEncryption::new();
    let mut network = ManagerNetwork::new();
    let mut db = DbQueue::new();
    let mut registry = ManagerClient::new();
    registry.add_client("peer:1".to_string());

    let msg = block_from("X", "relay:1");
    let wire = AesEncryption::encrypt(msg.encode().as_slice(), aes.get_key(), aes.get_iv());

    let outcome = handle_incoming(
        wire.as_slice(),
        &aes,
        "self:1",
        3,
        &mut network,
        &mut db,
        &registry,
    );
    let outcome = outcome.unwrap();
    assert!(outcome.distribute.is_ok());
    assert!(outcome.responses.is_ok());
    assert_eq!(db.entries_count("X"), 1);
    assert!(network.has_received("X"));
}

#[test]
fn handle_incoming_drops_garbage() {
    let aes = AesEncryption::new();
    let mut network = ManagerNetwork::new();
    let mut db = DbQueue::new();
    let registry = ManagerClient::new();
    let outcome = handle_incoming(
        &[1, 2, 3],
        &aes,
        "self:1",
        3,
        &mut network,
        &mut db,
        &registry,
    );
    assert!(outcome.is_none());
    assert_eq!(db.entries_count("X"), 0);
}
