use swarm_core::did::Did;
use swarm_core::errors::{Error, TransportError};
use swarm_core::message::Message;
use swarm_core::payload::MessagePayload;
use swarm_core::session::SecretKey;
use swarm_core::swarm::{Swarm, SwarmBuilder};
use swarm_core::transport::{ConnectionState, Event};

const STUN: &str = "stun://stun.l.google.com:19302";

fn did(n: u8) -> Did {
    let mut b = [0u8; 20];
    b[19] = n;
    Did::from_bytes(b)
}

fn new_swarm(key: u64) -> Swarm {
    SwarmBuilder::new(STUN)
        .key(SecretKey { key })
        .build()
        .unwrap()
}

/// Drive a fresh connection to the Connected state, as an established
/// channel would be.
fn connected_transport(swarm: &mut Swarm, peer: Did) -> swarm_core::transport::Connection {
    let mut t = swarm.new_transport(peer);
    t.webrtc_accept_answer(&b"answer:stub".to_vec());
    t
}

#[test]
fn swarm_new_transport() {
    let mut swarm = new_swarm(1);
    let transport = swarm.new_transport(did(2));
    assert_eq!(transport.ice_connection_state(), ConnectionState::New);
}

#[test]
fn test_swarm_register_and_get() {
    let mut swarm1 = new_swarm(1);
    let mut swarm2 = new_swarm(2);

    assert!(swarm1.get_transport(swarm2.did()).is_none());
    assert!(swarm2.get_transport(swarm1.did()).is_none());

    let transport1 = connected_transport(&mut swarm1, swarm2.did());
    let transport2 = connected_transport(&mut swarm2, swarm1.did());
    let id1 = transport1.id;
    let id2 = transport2.id;

    swarm1.register(swarm2.did(), transport1).unwrap();
    swarm2.register(swarm1.did(), transport2).unwrap();

    let transport_1_to_2 = swarm1.get_transport(swarm2.did()).unwrap();
    let transport_2_to_1 = swarm2.get_transport(swarm1.did()).unwrap();

    assert_eq!(transport_1_to_2.id, id1);
    assert_eq!(transport_2_to_1.id, id2);
}

#[test]
fn test_swarm_will_close_previous_transport() {
    let mut swarm1 = new_swarm(1);
    let swarm2 = new_swarm(2);

    assert!(swarm1.get_transport(swarm2.did()).is_none());

    let transport0 = connected_transport(&mut swarm1, swarm2.did());
    let transport1 = connected_transport(&mut swarm1, swarm2.did());
    let id0 = transport0.id;
    let id1 = transport1.id;

    swarm1.register(swarm2.did(), transport0).unwrap();
    swarm1.register(swarm2.did(), transport1).unwrap();

    assert_eq!(swarm1.connection_state(id0), Some(ConnectionState::Closed));
    assert_eq!(
        swarm1.connection_state(id1),
        Some(ConnectionState::Connected)
    );
    assert_eq!(swarm1.get_transport(swarm2.did()).unwrap().id, id1);
}

#[test]
fn s5_overwrite_closes_prior() {
    let mut swarm = new_swarm(1);
    let d = did(9);
    let c0 = swarm.new_transport(d);
    let c1 = swarm.new_transport(d);
    let id0 = c0.id;
    let id1 = c1.id;

    swarm.register(d, c0).unwrap();
    swarm.register(d, c1).unwrap();

    assert_eq!(swarm.connection_state(id0), Some(ConnectionState::Closed));
    assert_ne!(swarm.connection_state(id1), Some(ConnectionState::Closed));
    assert_eq!(swarm.get_transport(d).unwrap().id, id1);
}

#[test]
fn test_swarm_transport_iter() {
    let mut swarm1 = new_swarm(1);
    let swarm2 = new_swarm(2);
    let swarm3 = new_swarm(3);

    assert_eq!(swarm1.transport_dids().len(), 0);

    let transport_2 = connected_transport(&mut swarm1, swarm2.did());
    let transport_3 = connected_transport(&mut swarm1, swarm3.did());

    swarm1.register(swarm2.did(), transport_2).unwrap();
    assert_eq!(swarm1.transport_dids().len(), 1);
    swarm1.register(swarm3.did(), transport_3).unwrap();
    assert_eq!(swarm1.transport_dids().len(), 2);
}

#[test]
fn s6_handshake_happy_path() {
    let mut a = new_swarm(1);
    let mut b = new_swarm(2);
    let a_did = a.did();
    let b_did = b.did();

    let (cid_a, offer_payload) = a.create_offer(b_did).unwrap();
    let (_cid_b, answer_payload) = b.answer_offer(offer_payload).unwrap();
    let (peer, accepted_cid) = a.accept_answer(answer_payload).unwrap();
    assert_eq!(peer, b_did);
    assert_eq!(accepted_cid, cid_a);

    // each side drains the registration event its open channel fired
    let join_at_a = a.poll_message().unwrap();
    let join_at_b = b.poll_message().unwrap();
    assert!(matches!(join_at_a.body, Message::JoinDHT(ref j) if j.id == b_did));
    assert!(matches!(join_at_b.body, Message::JoinDHT(ref j) if j.id == a_did));

    let a_to_b = a.get_transport(b_did).unwrap();
    let b_to_a = b.get_transport(a_did).unwrap();
    assert_eq!(a_to_b.ice_connection_state(), ConnectionState::Connected);
    assert_eq!(b_to_a.ice_connection_state(), ConnectionState::Connected);
}

#[test]
fn handshake_rejects_bad_signature_and_wrong_body() {
    let mut a = new_swarm(1);
    let mut b = new_swarm(2);
    let b_did = b.did();

    let (_cid, offer_payload) = a.create_offer(b_did).unwrap();
    let mut forged = offer_payload.clone();
    forged.origin_signature = forged.origin_signature.wrapping_add(1);
    assert_eq!(
        b.answer_offer(forged).unwrap_err(),
        Error::VerifySignatureFailed
    );

    // a verified payload of the wrong kind is refused as such
    let join = MessagePayload::new_send(
        Message::JoinDHT(swarm_core::message::JoinDHT { id: b_did }),
        a.session_manager(),
        a.did(),
        b_did,
    );
    assert_eq!(b.answer_offer(join).unwrap_err(), Error::InvalidMessage);
}

#[test]
fn prepare_offer_refuses_live_peer() {
    let mut a = new_swarm(1);
    let d = did(7);
    let conn = connected_transport(&mut a, d);
    a.register(d, conn).unwrap();
    assert_eq!(
        a.prepare_connection_offer(d).unwrap_err(),
        Error::AlreadyConnected
    );
}

#[test]
fn accept_answer_without_offer_is_not_found() {
    let mut a = new_swarm(1);
    let mut b = new_swarm(2);
    // b answers an offer nobody from a sent through the pending list of b
    let (_cid, offer) = a.create_offer(b.did()).unwrap();
    let (_cid2, answer) = b.answer_offer(offer).unwrap();
    // a swarm with no matching pending entry cannot accept it
    let mut c = new_swarm(3);
    assert_eq!(c.accept_answer(answer).unwrap_err(), Error::ConnectionNotFound);
}

#[test]
fn pending_list_tracks_push_pop_find() {
    let mut s = new_swarm(1);
    let c = s.new_transport(did(5));
    let id = c.id;
    s.push_pending_transport(c).unwrap();
    assert_eq!(s.pending_transports(), vec![id]);
    assert!(s.find_pending_transport(id).is_some());
    assert!(s.find_pending_transport(id.wrapping_add(1)).is_none());
    assert_eq!(
        s.pop_pending_transport(id.wrapping_add(1)).unwrap_err(),
        Error::SwarmPendingTransNotFound
    );
    s.pop_pending_transport(id).unwrap();
    assert!(s.pending_transports().is_empty());
    // popping closed it
    assert_eq!(s.connection_state(id), Some(ConnectionState::Closed));
}

#[test]
fn do_send_payload_routes_by_table() {
    let mut s = new_swarm(1);
    let d = did(6);
    let payload = MessagePayload::new_send(
        Message::JoinDHT(swarm_core::message::JoinDHT { id: d }),
        s.session_manager(),
        s.did(),
        d,
    );
    assert_eq!(
        s.do_send_payload(d, &payload).unwrap_err(),
        Error::MissDidInTable(d)
    );
    let conn = connected_transport(&mut s, d);
    s.register(d, conn).unwrap();
    s.do_send_payload(d, &payload).unwrap();
    let sent = &s.get_transport(d).unwrap().sent;
    assert_eq!(sent.len(), 1);
    // the frame on the channel is the canonical encoding
    assert_eq!(sent[0], payload.encode());
    let decoded = MessagePayload::decode(&sent[0]).unwrap();
    assert_eq!(decoded, payload);
}

#[test]
fn receive_message_event_round_trips() {
    let mut s = new_swarm(1);
    let sender = new_swarm(2);
    let payload = MessagePayload::new_send(
        Message::ConnectNodeSend(swarm_core::message::ConnectNodeSend {
            sdp: b"v=0".to_vec(),
        }),
        sender.session_manager(),
        sender.did(),
        s.did(),
    );
    s.events.push(Event::ReceiveMessage(payload.encode()));
    let got = s.poll_message().unwrap();
    assert_eq!(got, payload);

    // a tampered frame is dropped
    let mut bad = payload.encode();
    let last = bad.len() - 2;
    bad[last] = bad[last].wrapping_add(1);
    s.events.push(Event::ReceiveMessage(bad));
    assert!(s.poll_message().is_none());
}

#[test]
fn connect_closed_event_clears_slot_and_reports_leave() {
    let mut s = new_swarm(1);
    let d = did(4);
    let conn = connected_transport(&mut s, d);
    let id = conn.id;
    s.register(d, conn).unwrap();
    s.events.push(Event::ConnectClosed(d, id));
    let leave = s.poll_message().unwrap();
    assert!(matches!(leave.body, Message::LeaveDHT(ref l) if l.id == d));
    assert!(s.get_transport(d).is_none());
    assert_eq!(s.connection_state(id), Some(ConnectionState::Closed));

    // a stale close for an unknown id does nothing
    let conn2 = connected_transport(&mut s, d);
    let id2 = conn2.id;
    s.register(d, conn2).unwrap();
    s.events.push(Event::ConnectClosed(d, id2.wrapping_add(1)));
    assert!(s.poll_message().is_none());
    assert_eq!(s.get_transport(d).unwrap().id, id2);
}

#[test]
fn get_or_register_keeps_existing_and_rejects_unconnected() {
    let mut s = new_swarm(1);
    let d = did(3);
    let fresh = s.new_transport(d);
    assert_eq!(
        s.get_or_register(d, fresh).unwrap_err(),
        Error::Transport(TransportError::NotConnected)
    );
    let c1 = connected_transport(&mut s, d);
    let id1 = c1.id;
    assert_eq!(s.get_or_register(d, c1).unwrap(), id1);
    let c2 = connected_transport(&mut s, d);
    assert_eq!(s.get_or_register(d, c2).unwrap(), id1);
}

#[test]
fn disconnect_removes_and_closes() {
    let mut s = new_swarm(1);
    let d = did(8);
    assert_eq!(s.disconnect(d).unwrap_err(), Error::ConnectionNotFound);
    let conn = connected_transport(&mut s, d);
    let id = conn.id;
    s.register(d, conn).unwrap();
    s.disconnect(d).unwrap();
    assert!(s.get_transport(d).is_none());
    assert_eq!(s.connection_state(id), Some(ConnectionState::Closed));
}

#[test]
fn connect_via_needs_a_live_route() {
    let mut s = new_swarm(1);
    let target = did(7);
    let hop = did(6);
    assert_eq!(
        s.connect_via(target, hop).unwrap_err(),
        Error::MissDidInTable(hop)
    );
    // the created connection stays pending for garbage collection
    assert_eq!(s.pending_transports().len(), 1);

    let route = connected_transport(&mut s, hop);
    s.register(hop, route).unwrap();
    let cid = s.connect_via(target, hop).unwrap();
    assert!(s.pending_transports().contains(&cid));
    // the offer travelled through the hop's channel
    assert_eq!(s.get_transport(hop).unwrap().sent.len(), 1);
}

#[test]
fn judgement_advises_connect() {
    let mut s = new_swarm(1);
    let d = did(5);
    // without a counter everything is allowed
    assert!(s.should_connect(d));
    s.measure = Some(Vec::new());
    assert!(s.should_connect(d));
    s.record_sent_failed(d);
    assert!(!s.should_connect(d));
    assert_eq!(
        s.judge_connect(d).unwrap_err(),
        Error::NodeBehaviourBad(d)
    );
    // one success balances the failure
    s.record_sent(d);
    assert!(s.should_connect(d));
}

#[test]
fn builder_parses_servers_and_needs_identity() {
    let b = SwarmBuilder::new("stun://a.example:3478;turn://b.example:3478");
    assert_eq!(b.ice_servers.len(), 2);
    assert_eq!(b.ice_servers[0].uri, b"stun://a.example:3478".to_vec());
    assert_eq!(b.ice_servers[1].uri, b"turn://b.example:3478".to_vec());
    assert_eq!(b.dht_succ_max, 3);
    assert_eq!(b.build().unwrap_err(), Error::SwarmBuildFailed);

    let sw = SwarmBuilder::new(STUN)
        .dht_succ_max(5)
        .session_ttl(1000)
        .key(SecretKey { key: 4 })
        .build()
        .unwrap();
    assert_eq!(sw.dht_succ_max, 5);
    assert_eq!(sw.session_manager().token, 4);
    assert_eq!(sw.session_manager().ttl_ms, 1000);
}

#[test]
fn send_message_fails_without_route() {
    let mut s = new_swarm(1);
    let d = did(2);
    assert_eq!(
        s.send_message(
            Message::JoinDHT(swarm_core::message::JoinDHT { id: d }),
            d
        )
        .unwrap_err(),
        Error::MissDidInTable(d)
    );
}

#[test]
fn transport_send_needs_open_channel() {
    let mut s = new_swarm(1);
    let mut t = s.new_transport(did(2));
    assert_eq!(
        t.send_message(&b"frame".to_vec()).unwrap_err(),
        Error::Transport(TransportError::ChannelNotOpen)
    );
    t.webrtc_accept_answer(&b"a".to_vec());
    t.send_message(&b"frame".to_vec()).unwrap();
    assert_eq!(t.sent, vec![b"frame".to_vec()]);
}

#[test]
fn close_is_idempotent() {
    let mut s = new_swarm(1);
    let mut t = s.new_transport(did(2));
    t.close();
    assert_eq!(t.ice_connection_state(), ConnectionState::Closed);
    assert_eq!(t.close_count, 1);
    t.close();
    assert_eq!(t.close_count, 1);
}

#[test]
fn clock_and_ids_are_sane() {
    // the clock reads a current timestamp, after 2020
    assert!(swarm_core::utils::get_epoch_ms() > 1_577_836_800_000);
    // two freshly drawn connection ids differ
    let a = swarm_core::utils::new_connection_id();
    let b = swarm_core::utils::new_connection_id();
    assert_ne!(a, b);
}
