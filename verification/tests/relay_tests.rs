use swarm_core::did::Did;
use swarm_core::errors::Error;
use swarm_core::relay::{MessageRelay, RelayMethod};

fn did(n: u8) -> Did {
    let mut b = [0u8; 20];
    b[19] = n;
    Did::from_bytes(b)
}

#[test]
fn test_path_end_cursor() {
    let origin_sender = did(0);
    let next_hop1 = did(1);
    let next_hop2 = did(2);
    let next_hop3 = did(3);

    let mut send_relay = MessageRelay {
        method: RelayMethod::SEND,
        path: vec![origin_sender],
        path_end_cursor: 0,
        next_hop: None,
        destination: next_hop3,
    };

    // node0 -> node1
    send_relay.relay(next_hop1, None).unwrap();
    assert_eq!(send_relay.path_end_cursor, 0);

    // node0 -> node1 -> node2
    send_relay.relay(next_hop2, None).unwrap();
    assert_eq!(send_relay.path_end_cursor, 0);

    // node0 -> node1 -> node2 -> node3
    send_relay.relay(next_hop3, None).unwrap();
    assert_eq!(send_relay.path_end_cursor, 0);

    // node3 make REPORT, destination is node0
    let mut report_relay = send_relay.report().unwrap();
    assert_eq!(report_relay.path_end_cursor, 0);

    // node0 -> node1 -> node2 -> node3 -> node2
    report_relay.relay(next_hop2, None).unwrap();
    assert_eq!(report_relay.path_end_cursor, 1);

    // node0 -> node1 -> node2 -> node3 -> node2 -> node1
    report_relay.relay(next_hop1, None).unwrap();
    assert_eq!(report_relay.path_end_cursor, 2);
}

#[test]
fn test_path_prev() {
    let origin_sender = did(0);
    let next_hop1 = did(1);
    let next_hop2 = did(2);

    let mut relay = MessageRelay {
        method: RelayMethod::SEND,
        path: vec![origin_sender],
        path_end_cursor: 0,
        next_hop: None,
        destination: next_hop2,
    };

    assert!(relay.path_prev().is_none());

    relay.relay(next_hop1, None).unwrap();
    assert_eq!(relay.path_prev(), Some(origin_sender));

    relay.relay(next_hop2, None).unwrap();
    assert_eq!(relay.path_prev(), Some(next_hop1));
}

#[test]
fn s1_forward_then_report() {
    let d0 = did(0);
    let d1 = did(1);
    let d2 = did(2);
    let d3 = did(3);

    let mut env = MessageRelay {
        method: RelayMethod::SEND,
        path: vec![d0],
        path_end_cursor: 0,
        next_hop: None,
        destination: d3,
    };
    env.relay(d1, None).unwrap();
    env.relay(d2, None).unwrap();
    env.relay(d3, None).unwrap();
    assert_eq!(env.path, vec![d0, d1, d2, d3]);
    assert_eq!(env.path_end_cursor, 0);

    let mut rep = env.report().unwrap();
    assert_eq!(rep.method, RelayMethod::REPORT);
    assert_eq!(rep.path, vec![d0, d1, d2, d3]);
    assert_eq!(rep.path_end_cursor, 0);
    assert_eq!(rep.next_hop, Some(d2));
    assert_eq!(rep.destination, d0);

    rep.relay(d2, None).unwrap();
    assert_eq!(rep.path_end_cursor, 1);
    assert_eq!(rep.next_hop, Some(d1));

    rep.relay(d1, None).unwrap();
    assert_eq!(rep.path_end_cursor, 2);
    assert_eq!(rep.next_hop, Some(d0));

    // the final return hop ends the walk
    rep.relay(d0, None).unwrap();
    assert_eq!(rep.path_end_cursor, 3);
    assert_eq!(rep.next_hop, None);
}

#[test]
fn s2_path_prev_edge() {
    let d0 = did(0);
    let d1 = did(1);
    let d2 = did(2);
    let mut env = MessageRelay {
        method: RelayMethod::SEND,
        path: vec![d0],
        path_end_cursor: 0,
        next_hop: None,
        destination: d2,
    };
    assert!(env.path_prev().is_none());
    env.relay(d1, None).unwrap();
    assert_eq!(env.path_prev(), Some(d0));
    env.relay(d2, None).unwrap();
    assert_eq!(env.path_prev(), Some(d1));
}

#[test]
fn s3_invalid_adjacent() {
    let d0 = did(0);
    let env = MessageRelay {
        method: RelayMethod::SEND,
        path: vec![d0, d0],
        path_end_cursor: 0,
        next_hop: None,
        destination: did(2),
    };
    assert_eq!(env.validate(), Err(Error::InvalidRelayPath));
}

#[test]
fn s4_report_destination_mismatch() {
    let d0 = did(0);
    let d1 = did(1);
    let env = MessageRelay {
        method: RelayMethod::REPORT,
        path: vec![d0, d1],
        path_end_cursor: 0,
        next_hop: None,
        destination: d1,
    };
    assert_eq!(env.validate(), Err(Error::InvalidRelayDestination));
}

#[test]
fn path_grows_by_one_per_relay_without_adjacent_dups() {
    let hops = [did(1), did(2), did(3), did(4), did(5)];
    let mut env = MessageRelay {
        method: RelayMethod::SEND,
        path: vec![did(0)],
        path_end_cursor: 0,
        next_hop: None,
        destination: did(5),
    };
    for (k, h) in hops.iter().enumerate() {
        env.relay(*h, None).unwrap();
        assert_eq!(env.path.len(), k + 2);
    }
    for w in env.path.windows(2) {
        assert_ne!(w[0], w[1]);
    }
}

#[test]
fn relay_rejects_wrong_next_hop() {
    let d0 = did(0);
    let d1 = did(1);
    let d2 = did(2);
    let mut env = MessageRelay {
        method: RelayMethod::SEND,
        path: vec![d0],
        path_end_cursor: 0,
        next_hop: Some(d1),
        destination: d2,
    };
    assert_eq!(env.relay(d2, None), Err(Error::InvalidNextHop));
    // the envelope is untouched by the failure
    assert_eq!(env.path, vec![d0]);
    assert_eq!(env.next_hop, Some(d1));
}

#[test]
fn report_needs_send_and_two_hops() {
    let d0 = did(0);
    let d1 = did(1);
    let rep = MessageRelay {
        method: RelayMethod::REPORT,
        path: vec![d0, d1],
        path_end_cursor: 0,
        next_hop: None,
        destination: d0,
    };
    assert_eq!(rep.report().unwrap_err(), Error::ReportNeedSend);

    let short = MessageRelay {
        method: RelayMethod::SEND,
        path: vec![d0],
        path_end_cursor: 0,
        next_hop: None,
        destination: d1,
    };
    assert_eq!(short.report().unwrap_err(), Error::CannotInferNextHop);
}

#[test]
fn report_relay_cannot_infer_unknown_hop() {
    let d0 = did(0);
    let d1 = did(1);
    let stranger = did(9);
    let mut rep = MessageRelay {
        method: RelayMethod::REPORT,
        path: vec![d0, d1],
        path_end_cursor: 0,
        next_hop: None,
        destination: d0,
    };
    assert_eq!(rep.relay(stranger, None), Err(Error::CannotInferNextHop));
    // an explicit hop rescues the same call
    assert!(rep.relay(stranger, Some(d0)).is_ok());
    assert_eq!(rep.next_hop, Some(d0));
}

#[test]
fn reset_destination_needs_send() {
    let d0 = did(0);
    let d1 = did(1);
    let d2 = did(2);
    let mut env = MessageRelay {
        method: RelayMethod::SEND,
        path: vec![d0],
        path_end_cursor: 0,
        next_hop: None,
        destination: d1,
    };
    env.reset_destination(d2).unwrap();
    assert_eq!(env.destination, d2);

    let mut rep = MessageRelay {
        method: RelayMethod::REPORT,
        path: vec![d0, d1],
        path_end_cursor: 0,
        next_hop: None,
        destination: d0,
    };
    assert_eq!(rep.reset_destination(d2), Err(Error::ResetDestinationNeedSend));
    assert_eq!(rep.destination, d0);
}

#[test]
fn origin_and_sender_by_method() {
    let d0 = did(0);
    let d1 = did(1);
    let send = MessageRelay {
        method: RelayMethod::SEND,
        path: vec![d0, d1],
        path_end_cursor: 0,
        next_hop: None,
        destination: d1,
    };
    assert_eq!(send.origin(), d0);
    assert_eq!(send.sender(), d0);
    let rep = MessageRelay {
        method: RelayMethod::REPORT,
        path: vec![d0, d1],
        path_end_cursor: 0,
        next_hop: None,
        destination: d0,
    };
    assert_eq!(rep.origin(), d0);
    assert_eq!(rep.sender(), d1);
}

#[test]
fn new_defaults_cursor_to_zero() {
    let d0 = did(0);
    let env = MessageRelay::new(RelayMethod::SEND, vec![d0], None, None, did(1));
    assert_eq!(env.path_end_cursor, 0);
    let env2 = MessageRelay::new(RelayMethod::SEND, vec![d0], Some(7), None, did(1));
    assert_eq!(env2.path_end_cursor, 7);
}

#[test]
fn cursor_stays_within_path() {
    let d0 = did(0);
    let d1 = did(1);
    let d2 = did(2);
    let mut env = MessageRelay {
        method: RelayMethod::SEND,
        path: vec![d0],
        path_end_cursor: 0,
        next_hop: None,
        destination: d2,
    };
    env.relay(d1, None).unwrap();
    env.relay(d2, None).unwrap();
    let mut rep = env.report().unwrap();
    assert!(rep.path_end_cursor < rep.path.len());
    rep.relay(d1, None).unwrap();
    assert!(rep.path_end_cursor < rep.path.len());
    rep.relay(d0, None).unwrap();
    assert!(rep.path_end_cursor < rep.path.len());
}
