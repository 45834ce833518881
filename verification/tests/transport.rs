use peer_overlay::codec::{decode_str_list, encode_str_list};
use peer_overlay::handshake::{
    accept_disclosure, admission_status, build_disclosure, check_accept_status, frame_message,
    prepare_send, validate_disclosure, AesEncryption, HandshakeError, RsaEncryption,
    ACCEPT_STATUS, REJECT_FULL_STATUS,
};
use peer_overlay::interpreter::{InterpreterConstruct, TaskKind};
use peer_overlay::network::{b64_decode, b64_encode, blake3_hash, ManagerNetwork};
use peer_overlay::registry::{ManagerClient, ManagerServer};
use peer_overlay::synchronizer::{
    crossed_boundary, nanos_until_boundary, round_kind, RoundKind, Synchronizer,
};

#[test]
fn message_codec_round_trips() {
    let msg = InterpreterConstruct {
        creator: "origin:1".to_string(),
        from: "relay:2".to_string(),
        task: TaskKind::Block,
        data: Some(("h".to_string(), "o".to_string(), "payload".to_string())),
        created_at: 1234567,
    };
    let wire = msg.encode();
    let back = InterpreterConstruct::decode(&wire).unwrap();
    assert_eq!(back.creator, "origin:1");
    assert_eq!(back.from, "relay:2");
    assert_eq!(back.task, TaskKind::Block);
    assert_eq!(back.created_at, 1234567);
    assert_eq!(back.data.unwrap().2, "payload");

    let bare = InterpreterConstruct {
        creator: "a".to_string(),
        from: "b".to_string(),
        task: TaskKind::RespSync,
        data: None,
        created_at: 0,
    };
    let back = InterpreterConstruct::decode(&bare.encode()).unwrap();
    assert!(back.data.is_none());
    assert_eq!(back.task, TaskKind::RespSync);
}

#[test]
fn message_codec_rejects_truncation() {
    let msg = InterpreterConstruct {
        creator: "origin:1".to_string(),
        from: "relay:2".to_string(),
        task: TaskKind::Sync,
        data: None,
        created_at: 5,
    };
    let mut wire = msg.encode();
    wire.pop();
    assert!(InterpreterConstruct::decode(&wire).is_none());
    let empty: Vec<u8> = Vec::new();
    assert!(InterpreterConstruct::decode(&empty).is_none());
}

#[test]
fn str_list_codec_round_trips() {
    let items = vec!["node:1".to_string(), "".to_string(), "node:3".to_string()];
    let wire = encode_str_list(&items);
    assert_eq!(decode_str_list(&wire).unwrap(), items);
}

#[test]
fn view_codec_round_trips() {
    let mut net = ManagerNetwork::new();
    net.insert_node("node:1".to_string(), 42, 7, 1);
    net.insert_node("node:2".to_string(), 99, 0, 0);
    let text = net.serialize();
    let back = ManagerNetwork::deserialize(text.as_str()).unwrap();
    let n1 = back.get_node("node:1").unwrap();
    assert_eq!((n1.stake, n1.reward, n1.penalty), (42, 7, 1));
    let n2 = back.get_node("node:2").unwrap();
    assert_eq!((n2.stake, n2.reward, n2.penalty), (99, 0, 0));
    assert!(ManagerNetwork::deserialize("definitely not a view").is_none());
}

#[test]
fn base64_bridge_round_trips() {
    let data = vec![0u8, 251, 17, 255, 3];
    let text = b64_encode(data.as_slice());
    assert_ne!(text.as_bytes(), data.as_slice());
    assert_eq!(b64_decode(text.as_str()).unwrap(), data);
    assert!(b64_decode("%%%").is_none());
}

#[test]
fn blake3_wrapper_really_hashes() {
    let h1 = blake3_hash(b"ab");
    let h2 = blake3_hash(b"ac");
    assert_eq!(h1.len(), 32);
    assert_eq!(h2.len(), 32);
    assert_ne!(h1, h2);
    assert_eq!(h1, blake3_hash(b"ab"));
}

#[test]
fn aes_round_trips_and_changes_the_bytes() {
    let aes = AesEncryption::new();
    let plain = b"a short message".to_vec();
    let cipher = AesEncryption::encrypt(plain.as_slice(), aes.get_key(), aes.get_iv());
    assert_ne!(cipher.len(), plain.len());
    assert_eq!(aes.decrypt(cipher.as_slice()).unwrap(), plain);
    let copy = aes.clone();
    assert_eq!(copy.decrypt(cipher.as_slice()).unwrap(), plain);
}

#[test]
fn rsa_handshake_material_round_trips() {
    let keypair = openssl::rsa::Rsa::generate(2048).unwrap();
    let public_pem = keypair.public_key_to_pem().unwrap();
    let private_pem = keypair.private_key_to_pem().unwrap();
    let rsa = RsaEncryption::from_pems(public_pem.as_slice(), private_pem.as_slice()).unwrap();

    let served_pem = rsa.get_public_pkey().unwrap();
    let peer_key = RsaEncryption::parse_public(served_pem.as_slice()).unwrap();
    let aes = AesEncryption::new();
    let (enc_key, enc_iv, enc_url) =
        build_disclosure(&peer_key, &aes, "10.0.0.9:7004").unwrap();
    assert_ne!(enc_key.as_slice(), aes.get_key().as_slice());

    let (key, iv, url) =
        accept_disclosure(&rsa, enc_key.as_slice(), enc_iv.as_slice(), enc_url.as_slice())
            .unwrap();
    assert_eq!(&key, aes.get_key());
    assert_eq!(&iv, aes.get_iv());
    assert_eq!(url, "10.0.0.9:7004");
}

#[test]
fn acceptor_at_capacity_rejects() {
    assert_eq!(admission_status(5, 5), REJECT_FULL_STATUS);
    assert_eq!(admission_status(6, 5), REJECT_FULL_STATUS);
    assert_eq!(admission_status(4, 5), ACCEPT_STATUS);
    assert_eq!(check_accept_status(REJECT_FULL_STATUS).unwrap_err(), HandshakeError::Rejected);
    assert!(check_accept_status(ACCEPT_STATUS).is_ok());
}

#[test]
fn disclosure_validation_names_the_bad_field() {
    let key = vec![7u8; 32];
    let iv = vec![9u8; 16];
    let url = b"node:7001".to_vec();
    let (k, i, u) = validate_disclosure(key.clone(), iv.clone(), url.clone()).unwrap();
    assert_eq!(k, key);
    assert_eq!(i, iv);
    assert_eq!(u, "node:7001");

    assert_eq!(
        validate_disclosure(vec![7u8; 31], iv.clone(), url.clone()).unwrap_err(),
        HandshakeError::InvalidKey
    );
    assert_eq!(
        validate_disclosure(key.clone(), vec![9u8; 15], url.clone()).unwrap_err(),
        HandshakeError::InvalidIv
    );
    assert_eq!(
        validate_disclosure(key, iv, vec![0xff, 0xfe]).unwrap_err(),
        HandshakeError::InvalidAddress
    );
}

#[test]
fn framing_prefixes_the_length() {
    let framed = frame_message(b"abc");
    assert_eq!(framed, vec![0, 0, 0, 0, 0, 0, 0, 3, b'a', b'b', b'c']);
}

#[test]
fn prepare_send_needs_connection_and_key() {
    let mut registry = ManagerClient::new();
    assert!(prepare_send(&registry, "peer:1", b"hi").is_none());

    registry.add_client("peer:1".to_string());
    assert!(prepare_send(&registry, "peer:1", b"hi").is_none());

    let aes = AesEncryption::new();
    registry.add_key("peer:1".to_string(), aes.get_key().clone(), aes.get_iv().clone());
    let framed = prepare_send(&registry, "peer:1", b"hi").unwrap();
    // strip the 8-byte prefix and decrypt what was framed
    let cipher = &framed[8..];
    assert_eq!(aes.decrypt(cipher).unwrap(), b"hi".to_vec());
}

#[test]
fn outbound_registry_tracks_peers_and_keys() {
    let mut registry = ManagerClient::new();
    registry.add_client("peer:1".to_string());
    registry.add_client("peer:1".to_string());
    registry.add_client("peer:2".to_string());
    assert_eq!(registry.len(), 2);
    assert!(registry.contains("peer:1"));

    let clients = registry.get_connected_clients();
    assert_eq!(clients.len(), 2);

    let to_send = registry.get_to_send_clients("peer:1");
    assert_eq!(to_send, vec!["peer:2".to_string()]);

    let picked = registry.get_random_selection(1, "peer:1");
    assert_eq!(picked, vec!["peer:2".to_string()]);

    registry.add_client("peer:3".to_string());
    registry.add_client("peer:4".to_string());
    // the sample is exactly the requested size, or all eligible peers
    assert_eq!(registry.get_random_selection(2, "peer:1").len(), 2);
    assert_eq!(registry.get_random_selection(10, "peer:1").len(), 3);
    assert_eq!(registry.get_random_selection(10, "unknown:1").len(), 4);

    registry.remove_client("peer:1");
    assert!(!registry.contains("peer:1"));
    assert_eq!(registry.len(), 3);
}

#[test]
fn inbound_registry_expires_stale_sockets() {
    let mut registry = ManagerServer::new();
    registry.add_server("peer:1".to_string(), 100);
    registry.add_server("peer:2".to_string(), 10);
    assert!(registry.contains("peer:1"));

    // peer:2 is 90 seconds old at t=100 and gets swept
    registry.cleanup(100);
    assert!(registry.contains("peer:1"));
    assert!(!registry.contains("peer:2"));

    // a fresh entry is handed back, an expired one is reported gone
    assert!(registry.remove_server("peer:1", 120));
    assert!(!registry.contains("peer:1"));
    registry.add_server("peer:3".to_string(), 0);
    assert!(!registry.remove_server("peer:3", 90));
}

#[test]
fn scheduler_fires_each_slot_once() {
    assert!(crossed_boundary(24, 12));
    assert!(!crossed_boundary(24, 24));
    assert!(!crossed_boundary(25, 12));

    assert_eq!(round_kind(60, false), Some(RoundKind::Maintenance));
    assert_eq!(round_kind(72, false), Some(RoundKind::Committee));
    assert_eq!(round_kind(84, false), Some(RoundKind::Sync));
    assert_eq!(round_kind(96, false), Some(RoundKind::Committee));
    assert_eq!(round_kind(108, false), Some(RoundKind::Sync));
    assert_eq!(round_kind(72, true), None);
    assert_eq!(round_kind(84, true), None);
    assert_eq!(round_kind(60, true), Some(RoundKind::Maintenance));

    assert_eq!(nanos_until_boundary(24, 0), 0);
    assert_eq!(nanos_until_boundary(25, 250_000_000), 10_750_000_000);
}

#[test]
fn maintenance_round_floods_the_view() {
    let mut net = ManagerNetwork::new();
    let mut sync = Synchronizer::new("self:1".to_string(), 2, 3, &mut net);
    assert!(sync.first_maintenance);

    let empty_registry = ManagerClient::new();
    let r = sync.maintenance_round(&mut net, &empty_registry, 60);
    assert!(r.is_err());
    assert!(sync.first_maintenance);

    let mut registry = ManagerClient::new();
    registry.add_client("peer:1".to_string());
    let out = sync.maintenance_round(&mut net, &registry, 120).unwrap();
    assert_eq!(out.recipients, vec!["peer:1".to_string()]);
    assert!(!sync.first_maintenance);
    assert!(net.was_maintained_by("self:1"));

    // the flooded payload carries the view: the message decodes back
    let msg = InterpreterConstruct::decode(&out.message).unwrap();
    assert_eq!(msg.task, TaskKind::Maintain);
    assert_eq!(msg.creator, "self:1");
    let carried = ManagerNetwork::deserialize(msg.data.unwrap().2.as_str()).unwrap();
    assert!(carried.exists_node("self:1"));
}

#[test]
fn sync_round_requests_missing_committee_blocks() {
    let mut net = ManagerNetwork::new();
    let sync = Synchronizer::new("self:1".to_string(), 2, 3, &mut net);
    net.insert_node("other:1".to_string(), 50, 0, 0);
    net.choose_committee(2);

    let mut registry = ManagerClient::new();
    registry.add_client("peer:1".to_string());
    let out = sync.sync_round(&mut net, &registry, 144).unwrap();
    assert_eq!(out.recipients, vec!["peer:1".to_string()]);

    let msg = InterpreterConstruct::decode(&out.message).unwrap();
    assert_eq!(msg.task, TaskKind::Sync);
    let payload = msg.data.unwrap().2;
    let bytes = b64_decode(payload.as_str()).unwrap();
    let mut missing = decode_str_list(&bytes).unwrap();
    missing.sort();
    assert_eq!(missing, vec!["other:1".to_string(), "self:1".to_string()]);
}
