use swarm_core::did::Did;
use swarm_core::errors::Error;
use swarm_core::message::{ConnectNodeReport, ConnectNodeSend, JoinDHT, LeaveDHT, Message};
use swarm_core::payload::MessagePayload;
use swarm_core::relay::{MessageRelay, RelayMethod};
use swarm_core::session::{SecretKey, SessionManager, DEFAULT_SESSION_TTL_MS};

fn did(n: u8) -> Did {
    let mut b = [0u8; 20];
    b[19] = n;
    Did::from_bytes(b)
}

fn session(key: u64) -> SessionManager {
    SessionManager::new_with_seckey(&SecretKey { key }, None).unwrap()
}

#[test]
fn encode_decode_round_trip_offer() {
    let sm = session(7);
    let p = MessagePayload::new_send_at(
        Message::ConnectNodeSend(ConnectNodeSend { sdp: b"offer:blob".to_vec() }),
        &sm,
        did(1),
        did(2),
        1234,
    );
    let bytes = p.encode();
    let q = MessagePayload::decode(&bytes).unwrap();
    assert_eq!(q, p);
}

#[test]
fn encode_decode_round_trip_all_bodies() {
    let sm = session(99);
    let bodies = vec![
        Message::ConnectNodeSend(ConnectNodeSend { sdp: b"v=0 o=- s=-".to_vec() }),
        Message::ConnectNodeReport(ConnectNodeReport { sdp: b"answer".to_vec() }),
        Message::JoinDHT(JoinDHT { id: did(5) }),
        Message::LeaveDHT(LeaveDHT { id: did(6) }),
    ];
    for body in bodies {
        let p = MessagePayload::new_send_at(body, &sm, did(3), did(4), 42);
        let q = MessagePayload::decode(&p.encode()).unwrap();
        assert_eq!(q, p);
    }
}

#[test]
fn encode_decode_round_trip_long_path_and_report() {
    let sm = session(3);
    let mut p = MessagePayload::new_send_at(
        Message::JoinDHT(JoinDHT { id: did(9) }),
        &sm,
        did(1),
        did(4),
        18446744073709551615,
    );
    p.envelope = MessageRelay {
        method: RelayMethod::REPORT,
        path: vec![did(1), did(2), did(3), did(4)],
        path_end_cursor: 2,
        next_hop: Some(did(1)),
        destination: did(1),
    };
    p.destination_signature = Some(12345);
    let q = MessagePayload::decode(&p.encode()).unwrap();
    assert_eq!(q, p);
}

#[test]
fn encode_decode_round_trip_empty_path() {
    let sm = session(5);
    let mut p = MessagePayload::new_send_at(
        Message::JoinDHT(JoinDHT { id: did(2) }),
        &sm,
        did(1),
        did(2),
        7,
    );
    p.envelope = MessageRelay {
        method: RelayMethod::SEND,
        path: vec![],
        path_end_cursor: 0,
        next_hop: None,
        destination: did(2),
    };
    let q = MessagePayload::decode(&p.encode()).unwrap();
    assert_eq!(q, p);
}

#[test]
fn decode_accepts_only_the_canonical_form() {
    let sm = session(5);
    let p = MessagePayload::new_send_at(
        Message::JoinDHT(JoinDHT { id: did(2) }),
        &sm,
        did(1),
        did(2),
        7,
    );
    // equivalent JSON with one extra space is not the canonical form
    let mut spaced = p.encode();
    spaced.insert(1, b' ');
    assert!(serde_json::from_slice::<serde_json::Value>(&spaced).is_ok());
    assert_eq!(MessagePayload::decode(&spaced), Err(Error::DecodeError));
}

#[test]
fn decode_rejects_garbage_and_truncation() {
    assert_eq!(
        MessagePayload::decode(&b"not json at all".to_vec()),
        Err(Error::DecodeError)
    );
    let sm = session(1);
    let p = MessagePayload::new_send_at(
        Message::LeaveDHT(LeaveDHT { id: did(8) }),
        &sm,
        did(1),
        did(2),
        5,
    );
    let mut bytes = p.encode();
    bytes.pop();
    assert_eq!(MessagePayload::decode(&bytes), Err(Error::DecodeError));
    // trailing bytes are rejected too
    let mut bytes2 = p.encode();
    bytes2.push(b' ');
    assert_eq!(MessagePayload::decode(&bytes2), Err(Error::DecodeError));
}

#[test]
fn decode_rejects_flipped_byte() {
    let sm = session(1);
    let p = MessagePayload::new_send_at(
        Message::JoinDHT(JoinDHT { id: did(8) }),
        &sm,
        did(1),
        did(2),
        5,
    );
    let mut bytes = p.encode();
    bytes[0] = b'[';
    assert_eq!(MessagePayload::decode(&bytes), Err(Error::DecodeError));
}

#[test]
fn verify_is_exact_about_signature_and_ttl() {
    let sm = session(11);
    let p = MessagePayload::new_send_at(
        Message::ConnectNodeSend(ConnectNodeSend { sdp: b"x".to_vec() }),
        &sm,
        did(1),
        did(2),
        1000,
    );
    let deadline = 1000u128 + DEFAULT_SESSION_TTL_MS as u128;
    assert!(p.verify_at(1000));
    assert!(p.verify_at(deadline));
    assert!(!p.verify_at(deadline + 1));

    let mut tampered = p.clone();
    tampered.origin_signature = tampered.origin_signature.wrapping_add(1);
    assert!(!tampered.verify_at(1000));

    let mut rekeyed = p.clone();
    rekeyed.session_pubkey = rekeyed.session_pubkey.wrapping_add(1);
    assert!(!rekeyed.verify_at(1000));

    let mut redirected = p.clone();
    redirected.envelope.destination = did(3);
    assert!(!redirected.verify_at(1000));
}

#[test]
fn new_send_shapes_the_envelope() {
    let sm = session(21);
    let p = MessagePayload::new_send(
        Message::ConnectNodeSend(ConnectNodeSend { sdp: b"sdp".to_vec() }),
        &sm,
        did(7),
        did(8),
    );
    assert_eq!(p.envelope.method, RelayMethod::SEND);
    assert_eq!(p.envelope.path, vec![did(7)]);
    assert_eq!(p.envelope.path_end_cursor, 0);
    assert_eq!(p.envelope.next_hop, None);
    assert_eq!(p.envelope.destination, did(8));
    assert_eq!(p.session_pubkey, 21);
    assert_eq!(p.ttl_ms, DEFAULT_SESSION_TTL_MS);
    assert_eq!(p.destination_signature, None);
    assert!(p.verify());
}

#[test]
fn wire_format_is_canonical_json() {
    let sm = session(2);
    let mut bytes20 = [0u8; 20];
    for (i, b) in bytes20.iter_mut().enumerate() {
        *b = i as u8;
    }
    let dest = Did::from_bytes(bytes20);
    let p = MessagePayload::new_send_at(
        Message::ConnectNodeSend(ConnectNodeSend { sdp: b"v=0".to_vec() }),
        &sm,
        did(1),
        dest,
        1700000000000,
    );
    let bytes = p.encode();
    let v: serde_json::Value = serde_json::from_slice(&bytes).unwrap();
    assert_eq!(v["envelope"]["method"], "SEND");
    assert_eq!(
        v["envelope"]["path"][0],
        "0x0000000000000000000000000000000000000001"
    );
    assert_eq!(
        v["envelope"]["destination"],
        "0x000102030405060708090a0b0c0d0e0f10111213"
    );
    assert_eq!(v["envelope"]["path_end_cursor"], 0);
    assert_eq!(v["envelope"]["next_hop"], serde_json::Value::Null);
    assert_eq!(v["timestamp_ms"], 1700000000000u64);
    assert_eq!(v["ttl_ms"], DEFAULT_SESSION_TTL_MS);
    assert_eq!(v["body"]["ConnectNodeSend"]["sdp"], "v=0");
    assert_eq!(v["session_pubkey"], 2);
    assert_eq!(v["destination_signature"], serde_json::Value::Null);
}

#[test]
fn session_defaults_and_address_derivation() {
    let sk = SecretKey { key: 0x0102030405060708 };
    let sm = SessionManager::new_with_seckey(&sk, Some(5000)).unwrap();
    assert_eq!(sm.token, 0x0102030405060708);
    assert_eq!(sm.ttl_ms, 5000);
    let d = sk.address();
    let mut expect = [0u8; 20];
    expect[12..20].copy_from_slice(&[1, 2, 3, 4, 5, 6, 7, 8]);
    assert_eq!(d, Did::from_bytes(expect));
}

#[test]
fn did_equality_is_by_bytes() {
    let a = did(4);
    let b = did(4);
    let c = did(5);
    assert!(a.same(&b));
    assert!(!a.same(&c));
    assert_eq!(a, b);
    assert_ne!(a, c);
}
