//! The swarm: the per-node registry that owns direct connections keyed by
//! peer DID, the pending list of in-flight offers, the event queue that
//! drives registration, and the handshake that establishes new channels.
//!
//! The model is sequential: operations that a deployed node may run
//! concurrently are linearized here, which the design already allows —
//! the event loop serializes registry mutations per DID.

use vstd::prelude::*;
use crate::did::Did;
use crate::errors::{Error, TransportError};
use crate::message::{Message, ConnectNodeSend, ConnectNodeReport, JoinDHT, LeaveDHT};
use crate::payload::MessagePayload;
use crate::session::{SecretKey, SessionManager};
use crate::transport::{Connection, ConnectionState, Event, sdp_offer, sdp_answer};
use crate::utils::new_connection_id;
use vstd::string::*;

verus! {

/// Advisory per-peer counters kept by the judgement hook.
#[derive(Clone, Copy, Debug, PartialEq, Eq, Structural)]
pub struct BehaviourCounters {
    /// Connections recorded towards this peer.
    pub connect: u64,
    /// Disconnections recorded towards this peer.
    pub disconnected: u64,
    /// Messages recorded as sent to this peer.
    pub sent: u64,
    /// Messages recorded as failed towards this peer.
    pub failed_to_send: u64,
}

/// Which counter an observation bumps.
#[derive(Clone, Copy, Debug, PartialEq, Eq, Structural)]
pub enum MeasureCounter {
    /// A message went out.
    Sent,
    /// A message failed to go out.
    FailedToSend,
    /// A connection was established.
    Connect,
    /// A connection went away.
    Disconnected,
}

/// Index of the first element of `s` keyed by this DID, or minus one.
pub open spec fn reg_index_of(s: Seq<(Did, Connection)>, k: Did) -> int
    decreases s.len(),
{
    if s.len() == 0 {
        -1
    } else if s[0].0 == k {
        0
    } else {
        let r = reg_index_of(s.drop_first(), k);
        if r < 0 {
            -1int
        } else {
            r + 1
        }
    }
}

/// What the index means: in range and first, or absent entirely.
pub proof fn reg_index_of_props(s: Seq<(Did, Connection)>, k: Did)
    ensures
        reg_index_of(s, k) >= 0 ==> 0 <= reg_index_of(s, k) < s.len() && s[reg_index_of(s, k)].0 == k && forall|j: int|
            0 <= j < reg_index_of(s, k) ==> (#[trigger] s[j]).0 != k,
        reg_index_of(s, k) < 0 ==> forall|j: int| 0 <= j < s.len() ==> (#[trigger] s[j]).0 != k,
    decreases s.len(),
{
    if s.len() == 0 {
    } else if s[0].0 == k {
        assert(reg_index_of(s, k) == 0);
    } else {
        reg_index_of_props(s.drop_first(), k);
        let r = reg_index_of(s.drop_first(), k);
        assert(forall|j: int| 0 <= j < s.len() - 1 ==> s.drop_first()[j] == #[trigger] s[j + 1]);
        if r >= 0 {
            assert(reg_index_of(s, k) == r + 1);
            assert(s[r + 1].0 == k);
            assert forall|j: int| 0 <= j < r + 1 implies (#[trigger] s[j]).0 != k by {
                if j > 0 {
                    assert(s.drop_first()[j - 1] == s[j]);
                }
            }
        } else {
            assert forall|j: int| 0 <= j < s.len() implies (#[trigger] s[j]).0 != k by {
                if j > 0 {
                    assert(s.drop_first()[j - 1] == s[j]);
                }
            }
        }
    }
}

/// A first match at `i` is found at `i`.
pub proof fn reg_index_of_at(s: Seq<(Did, Connection)>, k: Did, i: int)
    requires
        0 <= i < s.len(),
        s[i].0 == k,
        forall|j: int| 0 <= j < i ==> (#[trigger] s[j]).0 != k,
    ensures
        reg_index_of(s, k) == i,
    decreases i,
{
    if i > 0 {
        assert(s.drop_first()[i - 1] == s[i]);
        assert(forall|j: int| 0 <= j < i - 1 ==> s.drop_first()[j] == #[trigger] s[j + 1]);
        reg_index_of_at(s.drop_first(), k, i - 1);
    }
}

/// No match anywhere means no index.
pub proof fn reg_index_of_none(s: Seq<(Did, Connection)>, k: Did)
    requires
        forall|j: int| 0 <= j < s.len() ==> (#[trigger] s[j]).0 != k,
    ensures
        reg_index_of(s, k) == -1,
    decreases s.len(),
{
    if s.len() > 0 {
        assert(forall|j: int| 0 <= j < s.len() - 1 ==> s.drop_first()[j] == #[trigger] s[j + 1]);
        reg_index_of_none(s.drop_first(), k);
    }
}

/// Index of the first element of `s` carrying this connection id, or minus one.
pub open spec fn pend_index_of(s: Seq<Connection>, k: u128) -> int
    decreases s.len(),
{
    if s.len() == 0 {
        -1
    } else if s[0].id == k {
        0
    } else {
        let r = pend_index_of(s.drop_first(), k);
        if r < 0 {
            -1int
        } else {
            r + 1
        }
    }
}

/// What the index means: in range and first, or absent entirely.
pub proof fn pend_index_of_props(s: Seq<Connection>, k: u128)
    ensures
        pend_index_of(s, k) >= 0 ==> 0 <= pend_index_of(s, k) < s.len() && s[pend_index_of(s, k)].id == k && forall|j: int|
            0 <= j < pend_index_of(s, k) ==> (#[trigger] s[j]).id != k,
        pend_index_of(s, k) < 0 ==> forall|j: int| 0 <= j < s.len() ==> (#[trigger] s[j]).id != k,
    decreases s.len(),
{
    if s.len() == 0 {
    } else if s[0].id == k {
        assert(pend_index_of(s, k) == 0);
    } else {
        pend_index_of_props(s.drop_first(), k);
        let r = pend_index_of(s.drop_first(), k);
        assert(forall|j: int| 0 <= j < s.len() - 1 ==> s.drop_first()[j] == #[trigger] s[j + 1]);
        if r >= 0 {
            assert(pend_index_of(s, k) == r + 1);
            assert(s[r + 1].id == k);
            assert forall|j: int| 0 <= j < r + 1 implies (#[trigger] s[j]).id != k by {
                if j > 0 {
                    assert(s.drop_first()[j - 1] == s[j]);
                }
            }
        } else {
            assert forall|j: int| 0 <= j < s.len() implies (#[trigger] s[j]).id != k by {
                if j > 0 {
                    assert(s.drop_first()[j - 1] == s[j]);
                }
            }
        }
    }
}

/// A first match at `i` is found at `i`.
pub proof fn pend_index_of_at(s: Seq<Connection>, k: u128, i: int)
    requires
        0 <= i < s.len(),
        s[i].id == k,
        forall|j: int| 0 <= j < i ==> (#[trigger] s[j]).id != k,
    ensures
        pend_index_of(s, k) == i,
    decreases i,
{
    if i > 0 {
        assert(s.drop_first()[i - 1] == s[i]);
        assert(forall|j: int| 0 <= j < i - 1 ==> s.drop_first()[j] == #[trigger] s[j + 1]);
        pend_index_of_at(s.drop_first(), k, i - 1);
    }
}

/// No match anywhere means no index.
pub proof fn pend_index_of_none(s: Seq<Connection>, k: u128)
    requires
        forall|j: int| 0 <= j < s.len() ==> (#[trigger] s[j]).id != k,
    ensures
        pend_index_of(s, k) == -1,
    decreases s.len(),
{
    if s.len() > 0 {
        assert(forall|j: int| 0 <= j < s.len() - 1 ==> s.drop_first()[j] == #[trigger] s[j + 1]);
        pend_index_of_none(s.drop_first(), k);
    }
}

/// Index of the first element of `s` aimed at this peer, or minus one.
pub open spec fn pend_peer_index_of(s: Seq<Connection>, k: Did) -> int
    decreases s.len(),
{
    if s.len() == 0 {
        -1
    } else if s[0].peer == k {
        0
    } else {
        let r = pend_peer_index_of(s.drop_first(), k);
        if r < 0 {
            -1int
        } else {
            r + 1
        }
    }
}

/// What the index means: in range and first, or absent entirely.
pub proof fn pend_peer_index_of_props(s: Seq<Connection>, k: Did)
    ensures
        pend_peer_index_of(s, k) >= 0 ==> 0 <= pend_peer_index_of(s, k) < s.len() && s[pend_peer_index_of(s, k)].peer == k && forall|j: int|
            0 <= j < pend_peer_index_of(s, k) ==> (#[trigger] s[j]).peer != k,
        pend_peer_index_of(s, k) < 0 ==> forall|j: int| 0 <= j < s.len() ==> (#[trigger] s[j]).peer != k,
    decreases s.len(),
{
    if s.len() == 0 {
    } else if s[0].peer == k {
        assert(pend_peer_index_of(s, k) == 0);
    } else {
        pend_peer_index_of_props(s.drop_first(), k);
        let r = pend_peer_index_of(s.drop_first(), k);
        assert(forall|j: int| 0 <= j < s.len() - 1 ==> s.drop_first()[j] == #[trigger] s[j + 1]);
        if r >= 0 {
            assert(pend_peer_index_of(s, k) == r + 1);
            assert(s[r + 1].peer == k);
            assert forall|j: int| 0 <= j < r + 1 implies (#[trigger] s[j]).peer != k by {
                if j > 0 {
                    assert(s.drop_first()[j - 1] == s[j]);
                }
            }
        } else {
            assert forall|j: int| 0 <= j < s.len() implies (#[trigger] s[j]).peer != k by {
                if j > 0 {
                    assert(s.drop_first()[j - 1] == s[j]);
                }
            }
        }
    }
}

/// A first match at `i` is found at `i`.
pub proof fn pend_peer_index_of_at(s: Seq<Connection>, k: Did, i: int)
    requires
        0 <= i < s.len(),
        s[i].peer == k,
        forall|j: int| 0 <= j < i ==> (#[trigger] s[j]).peer != k,
    ensures
        pend_peer_index_of(s, k) == i,
    decreases i,
{
    if i > 0 {
        assert(s.drop_first()[i - 1] == s[i]);
        assert(forall|j: int| 0 <= j < i - 1 ==> s.drop_first()[j] == #[trigger] s[j + 1]);
        pend_peer_index_of_at(s.drop_first(), k, i - 1);
    }
}

/// No match anywhere means no index.
pub proof fn pend_peer_index_of_none(s: Seq<Connection>, k: Did)
    requires
        forall|j: int| 0 <= j < s.len() ==> (#[trigger] s[j]).peer != k,
    ensures
        pend_peer_index_of(s, k) == -1,
    decreases s.len(),
{
    if s.len() > 0 {
        assert(forall|j: int| 0 <= j < s.len() - 1 ==> s.drop_first()[j] == #[trigger] s[j + 1]);
        pend_peer_index_of_none(s.drop_first(), k);
    }
}

/// Index of the first element of `s` counting for this DID, or minus one.
pub open spec fn meas_index_of(s: Seq<(Did, BehaviourCounters)>, k: Did) -> int
    decreases s.len(),
{
    if s.len() == 0 {
        -1
    } else if s[0].0 == k {
        0
    } else {
        let r = meas_index_of(s.drop_first(), k);
        if r < 0 {
            -1int
        } else {
            r + 1
        }
    }
}

/// What the index means: in range and first, or absent entirely.
pub proof fn meas_index_of_props(s: Seq<(Did, BehaviourCounters)>, k: Did)
    ensures
        meas_index_of(s, k) >= 0 ==> 0 <= meas_index_of(s, k) < s.len() && s[meas_index_of(s, k)].0 == k && forall|j: int|
            0 <= j < meas_index_of(s, k) ==> (#[trigger] s[j]).0 != k,
        meas_index_of(s, k) < 0 ==> forall|j: int| 0 <= j < s.len() ==> (#[trigger] s[j]).0 != k,
    decreases s.len(),
{
    if s.len() == 0 {
    } else if s[0].0 == k {
        assert(meas_index_of(s, k) == 0);
    } else {
        meas_index_of_props(s.drop_first(), k);
        let r = meas_index_of(s.drop_first(), k);
        assert(forall|j: int| 0 <= j < s.len() - 1 ==> s.drop_first()[j] == #[trigger] s[j + 1]);
        if r >= 0 {
            assert(meas_index_of(s, k) == r + 1);
            assert(s[r + 1].0 == k);
            assert forall|j: int| 0 <= j < r + 1 implies (#[trigger] s[j]).0 != k by {
                if j > 0 {
                    assert(s.drop_first()[j - 1] == s[j]);
                }
            }
        } else {
            assert forall|j: int| 0 <= j < s.len() implies (#[trigger] s[j]).0 != k by {
                if j > 0 {
                    assert(s.drop_first()[j - 1] == s[j]);
                }
            }
        }
    }
}

/// A first match at `i` is found at `i`.
pub proof fn meas_index_of_at(s: Seq<(Did, BehaviourCounters)>, k: Did, i: int)
    requires
        0 <= i < s.len(),
        s[i].0 == k,
        forall|j: int| 0 <= j < i ==> (#[trigger] s[j]).0 != k,
    ensures
        meas_index_of(s, k) == i,
    decreases i,
{
    if i > 0 {
        assert(s.drop_first()[i - 1] == s[i]);
        assert(forall|j: int| 0 <= j < i - 1 ==> s.drop_first()[j] == #[trigger] s[j + 1]);
        meas_index_of_at(s.drop_first(), k, i - 1);
    }
}

/// No match anywhere means no index.
pub proof fn meas_index_of_none(s: Seq<(Did, BehaviourCounters)>, k: Did)
    requires
        forall|j: int| 0 <= j < s.len() ==> (#[trigger] s[j]).0 != k,
    ensures
        meas_index_of(s, k) == -1,
    decreases s.len(),
{
    if s.len() > 0 {
        assert(forall|j: int| 0 <= j < s.len() - 1 ==> s.drop_first()[j] == #[trigger] s[j + 1]);
        meas_index_of_none(s.drop_first(), k);
    }
}


/// A frame that is the canonical encoding of a payload this node freshly
/// signed and aimed at `destination` as both target and next hop.
pub open spec fn signed_frame_from(
    frame: Seq<u8>,
    node: Did,
    token: u64,
    ttl: u64,
    destination: Did,
    p: MessagePayload,
) -> bool {
    &&& frame == crate::payload::enc_payload(p)
    &&& p.wf()
    &&& p.signed_ok()
    &&& p.envelope.method is SEND
    &&& p.envelope.path@ == seq![node]
    &&& p.envelope.path_end_cursor == 0
    &&& p.envelope.next_hop == Some(destination)
    &&& p.envelope.destination == destination
    &&& p.session_pubkey == token
    &&& p.ttl_ms == ttl
    &&& p.destination_signature is None
}

/// What dispatching one backend event does to a swarm and what it hands
/// upward: the meaning of `poll_message` consuming `ev` in state `pre`.
pub open spec fn dispatched(pre: Swarm, post: Swarm, ev: Event, r: Option<MessagePayload>) -> bool {
    match ev {
        Event::ReceiveMessage(bytes) => {
            &&& post.reg() == pre.reg()
            &&& post.pend() == pre.pend()
            &&& post.ret() == pre.ret()
            &&& (match r {
                Some(p) => bytes@ == crate::payload::enc_payload(p) && p.wf() && p.signed_ok(),
                None => true,
            })
        },
        Event::RegisterTransport(did, id) => {
            let pi = pend_index_of(pre.pend(), id);
            &&& (pi >= 0 ==> post.pend() == pre.pend().remove(pi) && post.reg() == register_reg(
                pre.reg(),
                did,
                pre.pend()[pi],
            ) && post.ret() == register_retired(pre.reg(), pre.ret(), did))
            &&& (pi < 0 ==> post.pend() == pre.pend() && post.reg() == pre.reg() && post.ret()
                == pre.ret())
            &&& (match r {
                Some(p) => reg_lookup(post.reg(), did) is Some && p.body == Message::JoinDHT(
                    JoinDHT { id: did },
                ) && p.envelope.method is SEND && p.envelope.path@ == seq![pre.node_did]
                    && p.envelope.destination == pre.node_did && p.signed_ok(),
                None => reg_lookup(post.reg(), did) is None,
            })
        },
        Event::ConnectClosed(did, id) => {
            let pi = pend_index_of(pre.pend(), id);
            &&& (pi >= 0 ==> post.pend() == pre.pend().remove(pi))
            &&& (pi < 0 ==> post.pend() == pre.pend())
            &&& (match reg_lookup(pre.reg(), did) {
                Some(c) => {
                    if c.id == id {
                        post.reg() == pre.reg().remove(reg_index_of(pre.reg(), did)) && (match r {
                            Some(p) => p.body == Message::LeaveDHT(LeaveDHT { id: did })
                                && p.signed_ok(),
                            None => false,
                        })
                    } else {
                        post.reg() == pre.reg() && r is None
                    }
                },
                None => post.reg() == pre.reg() && r is None,
            })
        },
    }
}

/// Counters with nothing recorded yet.
pub open spec fn fresh_counters() -> BehaviourCounters {
    BehaviourCounters { connect: 0, disconnected: 0, sent: 0, failed_to_send: 0 }
}

/// One counter bumped (saturating), the others untouched.
pub open spec fn bumped_counters(c: BehaviourCounters, counter: MeasureCounter) -> BehaviourCounters {
    match counter {
        MeasureCounter::Sent => BehaviourCounters {
            sent: (if c.sent < u64::MAX {
                (c.sent + 1) as u64
            } else {
                c.sent
            }),
            ..c
        },
        MeasureCounter::FailedToSend => BehaviourCounters {
            failed_to_send: (if c.failed_to_send < u64::MAX {
                (c.failed_to_send + 1) as u64
            } else {
                c.failed_to_send
            }),
            ..c
        },
        MeasureCounter::Connect => BehaviourCounters {
            connect: (if c.connect < u64::MAX {
                (c.connect + 1) as u64
            } else {
                c.connect
            }),
            ..c
        },
        MeasureCounter::Disconnected => BehaviourCounters {
            disconnected: (if c.disconnected < u64::MAX {
                (c.disconnected + 1) as u64
            } else {
                c.disconnected
            }),
            ..c
        },
    }
}

/// The judgement log after recording one observation for `did`: absent a
/// counter nothing changes; with one, the peer's entry has exactly that
/// counter bumped, or a fresh entry is appended.
pub open spec fn measure_bumped(
    before: Option<Vec<(Did, BehaviourCounters)>>,
    after: Option<Vec<(Did, BehaviourCounters)>>,
    did: Did,
    counter: MeasureCounter,
) -> bool {
    match (before, after) {
        (Option::None, Option::None) => true,
        (Option::Some(m), Option::Some(m2)) => {
            let i = meas_index_of(m@, did);
            if i >= 0 {
                m2@ == m@.update(i, (did, bumped_counters(m@[i].1, counter)))
            } else {
                m2@ == m@.push((did, bumped_counters(fresh_counters(), counter)))
            }
        },
        _ => false,
    }
}

/// The connection registered for a DID, if any.
pub open spec fn reg_lookup(reg: Seq<(Did, Connection)>, did: Did) -> Option<Connection> {
    let i = reg_index_of(reg, did);
    if i < 0 {
        None
    } else {
        Some(reg[i].1)
    }
}

/// At most one registry slot per DID.
pub open spec fn reg_unique(reg: Seq<(Did, Connection)>) -> bool {
    forall|i: int, j: int|
        0 <= i < j < reg.len() ==> (#[trigger] reg[i]).0 != (#[trigger] reg[j]).0
}

/// A connection after one `close` call: already-closed ones are untouched.
pub open spec fn closed_of(c: Connection) -> Connection {
    if c.state is Closed {
        c
    } else {
        Connection { state: ConnectionState::Closed, close_count: (c.close_count + 1) as u32, ..c }
    }
}

/// The registry after `register(did, conn)`: the slot for `did` is
/// replaced, or a new slot appended.
pub open spec fn register_reg(reg: Seq<(Did, Connection)>, did: Did, conn: Connection) -> Seq<
    (Did, Connection),
> {
    let i = reg_index_of(reg, did);
    if i < 0 {
        reg.push((did, conn))
    } else {
        reg.update(i, (did, conn))
    }
}

/// The retired list after `register(did, conn)`: a displaced prior entry
/// is closed and kept.
pub open spec fn register_retired(
    reg: Seq<(Did, Connection)>,
    retired: Seq<Connection>,
    did: Did,
) -> Seq<Connection> {
    let i = reg_index_of(reg, did);
    if i < 0 {
        retired
    } else {
        retired.push(closed_of(reg[i].1))
    }
}

/// Registering binds exactly the given DID to the given connection and
/// touches no other binding.
pub proof fn lemma_register_lookup(reg: Seq<(Did, Connection)>, did: Did, conn: Connection)
    requires
        reg_unique(reg),
    ensures
        reg_unique(register_reg(reg, did, conn)),
        reg_lookup(register_reg(reg, did, conn), did) == Some(conn),
        forall|d2: Did|
            d2 != did ==> #[trigger] reg_lookup(register_reg(reg, did, conn), d2) == reg_lookup(
                reg,
                d2,
            ),
{
    reg_index_of_props(reg, did);
    let i = reg_index_of(reg, did);
    let reg2 = register_reg(reg, did, conn);
    if i < 0 {
        assert(reg_unique(reg2)) by {
            assert(forall|a: int, b: int|
                0 <= a < b < reg2.len() && b < reg.len() ==> (#[trigger] reg2[a]).0 != (
                #[trigger] reg2[b]).0);
            assert(forall|a: int| 0 <= a < reg.len() ==> (#[trigger] reg2[a]).0 != did);
        }
        reg_index_of_at(reg2, did, reg.len() as int);
        assert forall|d2: Did| d2 != did implies #[trigger] reg_lookup(reg2, d2) == reg_lookup(
            reg,
            d2,
        ) by {
            reg_index_of_props(reg, d2);
            let j = reg_index_of(reg, d2);
            if j < 0 {
                reg_index_of_none(reg2, d2);
            } else {
                reg_index_of_at(reg2, d2, j);
            }
        }
    } else {
        assert(reg2[i].0 == did && reg2[i].1 == conn);
        assert(reg_unique(reg2)) by {
            assert(forall|a: int|
                0 <= a < reg.len() && a != i ==> (#[trigger] reg2[a]).0 == reg[a].0);
            assert(forall|a: int| 0 <= a < reg.len() && a != i ==> reg[a].0 != did) by {
                assert(reg[i].0 == did);
            }
        }
        reg_index_of_at(reg2, did, i);
        assert forall|d2: Did| d2 != did implies #[trigger] reg_lookup(reg2, d2) == reg_lookup(
            reg,
            d2,
        ) by {
            reg_index_of_props(reg, d2);
            let j = reg_index_of(reg, d2);
            if j < 0 {
                reg_index_of_none(reg2, d2);
            } else {
                assert(j != i);
                reg_index_of_at(reg2, d2, j);
            }
        }
    }
}

/// Registry single-slot. Two successive registrations for one DID leave
/// exactly the second connection in the slot: the first is displaced,
/// closed exactly once, and kept on the retired list; bindings for every
/// other DID are untouched.
pub proof fn lemma_registry_single_slot(
    reg: Seq<(Did, Connection)>,
    retired: Seq<Connection>,
    d: Did,
    c1: Connection,
    c2: Connection,
)
    requires
        reg_unique(reg),
        c1.wf(),
        !(c1.state is Closed),
    ensures
        ({
            let reg1 = register_reg(reg, d, c1);
            let ret1 = register_retired(reg, retired, d);
            let reg2 = register_reg(reg1, d, c2);
            let ret2 = register_retired(reg1, ret1, d);
            &&& reg_lookup(reg2, d) == Some(c2)
            &&& ret2 == ret1.push(closed_of(c1))
            &&& closed_of(c1).state is Closed
            &&& closed_of(c1).close_count == 1
            &&& forall|d2: Did|
                d2 != d ==> #[trigger] reg_lookup(reg2, d2) == reg_lookup(reg, d2)
        }),
{
    lemma_register_lookup(reg, d, c1);
    let reg1 = register_reg(reg, d, c1);
    lemma_register_lookup(reg1, d, c2);
    reg_index_of_props(reg1, d);
    assert(reg_lookup(reg1, d) == Some(c1));
    assert(reg1[reg_index_of(reg1, d)].1 == c1);
}

/// At-most-once close: closing a well-formed connection records exactly
/// one close, and closing the result again changes nothing.
pub proof fn lemma_close_at_most_once(c: Connection)
    requires
        c.wf(),
        !(c.state is Closed),
    ensures
        closed_of(c).close_count == 1,
        closed_of(closed_of(c)) == closed_of(c),
        closed_of(c).wf(),
{
}

/// The per-node registry and everything that drives it.
#[derive(Debug)]
pub struct Swarm {
    /// This node's own DID.
    pub node_did: Did,
    /// The credential payloads are signed with.
    pub session_manager: SessionManager,
    /// The ICE servers negotiation would use.
    pub ice_servers: Vec<IceServer>,
    /// Advertised candidate host override, if any.
    pub external_address: Option<String>,
    /// Successor-list width handed to the routing layer.
    pub dht_succ_max: u8,
    /// Local port for forwarded hidden services, if any.
    pub hidden_service_port: Option<usize>,
    /// Advisory behaviour counters, when enabled.
    pub measure: Option<Vec<(Did, BehaviourCounters)>>,
    /// The DID-to-connection registry: at most one live slot per peer.
    pub registry: Vec<(Did, Connection)>,
    /// Connections whose offer is in flight, not yet admitted.
    pub pending: Vec<Connection>,
    /// Connections this swarm has closed; every one closed exactly once.
    pub retired: Vec<Connection>,
    /// Backend events waiting to be consumed, oldest first.
    pub events: Vec<Event>,
    /// Strict upper bound on every connection id this swarm has handed
    /// out; fresh ids are drawn at or above it, so they collide with no
    /// owned connection.
    pub id_horizon: u128,
}

/// One ICE server the backend would negotiate through.
#[derive(Clone, Debug, PartialEq)]
pub struct IceServer {
    /// The raw URI bytes; opaque to the core.
    pub uri: Vec<u8>,
}

impl Swarm {
    /// Every connection the swarm owns obeys the close discipline, the
    /// registry holds one slot per DID, retired connections are closed,
    /// ids stay below the horizon, pending ids are pairwise distinct, and
    /// no connection id is both pending and registered.
    pub open spec fn wf(self) -> bool {
        &&& reg_unique(self.registry@)
        &&& forall|i: int| 0 <= i < self.registry@.len() ==> (#[trigger] self.registry@[i]).1.wf()
        &&& forall|i: int| 0 <= i < self.pending@.len() ==> (#[trigger] self.pending@[i]).wf()
        &&& forall|i: int|
            0 <= i < self.retired@.len() ==> (#[trigger] self.retired@[i]).wf()
                && self.retired@[i].state is Closed
        &&& forall|i: int|
            0 <= i < self.registry@.len() ==> (#[trigger] self.registry@[i]).1.id
                < self.id_horizon
        &&& forall|i: int|
            0 <= i < self.pending@.len() ==> (#[trigger] self.pending@[i]).id < self.id_horizon
        &&& forall|i: int, j: int|
            0 <= i < self.pending@.len() && 0 <= j < self.pending@.len() && i != j ==> (
            #[trigger] self.pending@[i]).id != (#[trigger] self.pending@[j]).id
        &&& forall|i: int, j: int|
            0 <= i < self.registry@.len() && 0 <= j < self.pending@.len() ==> (
            #[trigger] self.registry@[i]).1.id != (#[trigger] self.pending@[j]).id
    }

    /// The configuration part of the swarm, which operations never touch.
    pub open spec fn same_config(a: Swarm, b: Swarm) -> bool {
        &&& a.node_did == b.node_did
        &&& a.session_manager == b.session_manager
        &&& a.ice_servers == b.ice_servers
        &&& a.external_address == b.external_address
        &&& a.dht_succ_max == b.dht_succ_max
        &&& a.hidden_service_port == b.hidden_service_port
        &&& a.measure == b.measure
    }

    /// The registry view.
    pub open spec fn reg(self) -> Seq<(Did, Connection)> {
        self.registry@
    }

    /// The pending view.
    pub open spec fn pend(self) -> Seq<Connection> {
        self.pending@
    }

    /// The retired view.
    pub open spec fn ret(self) -> Seq<Connection> {
        self.retired@
    }

    /// The event-queue view.
    pub open spec fn evs(self) -> Seq<Event> {
        self.events@
    }

    /// This node's DID.
    pub fn did(&self) -> (r: Did)
        ensures
            r == self.node_did,
    {
        self.node_did
    }

    /// The session credential this swarm signs with.
    pub fn session_manager(&self) -> (r: &SessionManager)
        ensures
            *r == self.session_manager,
    {
        &self.session_manager
    }

    /// Exec search for the registry slot of a DID.
    fn registry_index(&self, did: Did) -> (r: Option<usize>)
        ensures
            (match r {
                Some(i) => reg_index_of(self.registry@, did) == i,
                None => reg_index_of(self.registry@, did) < 0,
            }),
    {
        let n = self.registry.len();
        let mut i: usize = 0;
        while i < n
            invariant
                n == self.registry@.len(),
                i <= n,
                forall|j: int| 0 <= j < i ==> (#[trigger] self.registry@[j]).0 != did,
            decreases n - i,
        {
            if self.registry[i].0.same(&did) {
                proof {
                    reg_index_of_at(self.registry@, did, i as int);
                }
                return Some(i);
            }
            i = i + 1;
        }
        proof {
            reg_index_of_none(self.registry@, did);
        }
        None
    }

    /// Exec search for a pending connection by id.
    fn pending_index(&self, id: u128) -> (r: Option<usize>)
        ensures
            (match r {
                Some(i) => pend_index_of(self.pending@, id) == i,
                None => pend_index_of(self.pending@, id) < 0,
            }),
    {
        let n = self.pending.len();
        let mut i: usize = 0;
        while i < n
            invariant
                n == self.pending@.len(),
                i <= n,
                forall|j: int| 0 <= j < i ==> (#[trigger] self.pending@[j]).id != id,
            decreases n - i,
        {
            if self.pending[i].id == id {
                proof {
                    pend_index_of_at(self.pending@, id, i as int);
                }
                return Some(i);
            }
            i = i + 1;
        }
        proof {
            pend_index_of_none(self.pending@, id);
        }
        None
    }

    /// Exec search for a pending connection by peer.
    fn pending_peer_index(&self, peer: Did) -> (r: Option<usize>)
        ensures
            (match r {
                Some(i) => pend_peer_index_of(self.pending@, peer) == i,
                None => pend_peer_index_of(self.pending@, peer) < 0,
            }),
    {
        let n = self.pending.len();
        let mut i: usize = 0;
        while i < n
            invariant
                n == self.pending@.len(),
                i <= n,
                forall|j: int| 0 <= j < i ==> (#[trigger] self.pending@[j]).peer != peer,
            decreases n - i,
        {
            if self.pending[i].peer.same(&peer) {
                proof {
                    pend_peer_index_of_at(self.pending@, peer, i as int);
                }
                return Some(i);
            }
            i = i + 1;
        }
        proof {
            pend_peer_index_of_none(self.pending@, peer);
        }
        None
    }

    /// Build a fresh connection towards a peer. Its id is drawn from the
    /// backend and lifted above every id this swarm has handed out, so it
    /// collides with no owned connection. It is not registered: the caller
    /// registers it once it connects.
    pub fn new_transport(&mut self, peer: Did) -> (c: Connection)
        requires
            old(self).wf(),
            old(self).id_horizon < u128::MAX,
        ensures
            final(self).wf(),
            c.peer == peer,
            c.state is New,
            c.close_count == 0,
            c.sent@.len() == 0,
            c.remote_sdp is None,
            c.wf(),
            old(self).id_horizon <= c.id < final(self).id_horizon,
            final(self).registry == old(self).registry,
            final(self).pending == old(self).pending,
            final(self).retired == old(self).retired,
            final(self).events == old(self).events,
            Swarm::same_config(*final(self), *old(self)),
    {
        let mut u = new_connection_id();
        if u == u128::MAX {
            u = u128::MAX - 1;
        }
        let id = if u >= self.id_horizon {
            u
        } else {
            self.id_horizon
        };
        self.id_horizon = id + 1;
        Connection::new_connection(peer, id)
    }

    /// Register a connection for a DID: an atomic replace. A displaced
    /// prior entry is closed exactly once and kept on the retired list.
    pub fn register(&mut self, did: Did, conn: Connection) -> (r: Result<(), Error>)
        requires
            old(self).wf(),
            conn.wf(),
            conn.id < old(self).id_horizon,
            forall|j: int|
                0 <= j < old(self).pend().len() ==> (#[trigger] old(self).pend()[j]).id != conn.id,
        ensures
            r is Ok,
            final(self).wf(),
            final(self).reg() == register_reg(old(self).reg(), did, conn),
            final(self).ret() == register_retired(old(self).reg(), old(self).ret(), did),
            final(self).pend() == old(self).pend(),
            final(self).evs() == old(self).evs(),
            Swarm::same_config(*final(self), *old(self)),
            reg_lookup(final(self).reg(), did) == Some(conn),
            forall|d2: Did|
                d2 != did ==> #[trigger] reg_lookup(final(self).reg(), d2) == reg_lookup(
                    old(self).reg(),
                    d2,
                ),
    {
        proof {
            lemma_register_lookup(self.registry@, did, conn);
            reg_index_of_props(self.registry@, did);
        }
        match self.registry_index(did) {
            None => {
                self.registry.push((did, conn));
                proof {
                    assert(forall|a: int|
                        0 <= a < old(self).registry@.len() ==> self.registry@[a] == #[trigger] old(self).registry@[a]);
                    assert(self.registry@[old(self).registry@.len() as int] == (did, conn));
                    assert forall|a: int, j: int|
                        0 <= a < self.registry@.len() && 0 <= j < self.pending@.len() implies (
                    #[trigger] self.registry@[a]).1.id != (#[trigger] self.pending@[j]).id by {
                        assert(self.pending@[j] == old(self).pending@[j]);
                        assert(old(self).pend()[j] == old(self).pending@[j]);
                        if a == old(self).registry@.len() {
                            assert(self.registry@[a] == (did, conn));
                        } else {
                            assert(self.registry@[a] == old(self).registry@[a]);
                        }
                    }
                    assert forall|a: int|
                        0 <= a < self.registry@.len() implies (#[trigger] self.registry@[a]).1.id
                        < self.id_horizon by {
                        if a == old(self).registry@.len() {
                            assert(self.registry@[a] == (did, conn));
                        }
                    }
                    assert forall|a: int|
                        0 <= a < self.registry@.len() implies (#[trigger] self.registry@[a]).1.wf()
                        by {
                        if a == old(self).registry@.len() {
                            assert(self.registry@[a] == (did, conn));
                        }
                    }
                }
                Ok(())
            },
            Some(i) => {
                let (d0, mut prev) = self.registry.remove(i);
                let ghost prev0 = prev;
                prev.close();
                proof {
                    assert(prev == closed_of(prev0));
                }
                self.retired.push(prev);
                self.registry.insert(i, (did, conn));
                proof {
                    assert(self.registry@ =~= old(self).registry@.update(i as int, (did, conn)));
                    assert(forall|a: int|
                        0 <= a < old(self).registry@.len() && a != i ==> self.registry@[a]
                            == #[trigger] old(self).registry@[a]);
                    assert(self.registry@[i as int] == (did, conn));
                    assert forall|a: int, j: int|
                        0 <= a < self.registry@.len() && 0 <= j < self.pending@.len() implies (
                    #[trigger] self.registry@[a]).1.id != (#[trigger] self.pending@[j]).id by {
                        assert(self.pending@[j] == old(self).pending@[j]);
                        assert(old(self).pend()[j] == old(self).pending@[j]);
                        if a == i {
                            assert(self.registry@[a] == (did, conn));
                        } else {
                            assert(self.registry@[a] == old(self).registry@[a]);
                        }
                    }
                    assert forall|a: int|
                        0 <= a < self.registry@.len() implies (#[trigger] self.registry@[a]).1.id
                        < self.id_horizon && (#[trigger] self.registry@[a]).1.wf() by {
                        if a == i {
                            assert(self.registry@[a] == (did, conn));
                        } else {
                            assert(self.registry@[a] == old(self).registry@[a]);
                        }
                    }
                }
                Ok(())
            },
        }
    }

    /// The registered connection for a DID, if any.
    pub fn get_transport(&self, did: Did) -> (r: Option<&Connection>)
        ensures
            (match reg_lookup(self.reg(), did) {
                None => r is None,
                Some(c) => r matches Some(rc) && *rc == c,
            }),
    {
        proof {
            reg_index_of_props(self.registry@, did);
        }
        match self.registry_index(did) {
            None => None,
            Some(i) => Some(&self.registry[i].1),
        }
    }

    /// The registered connection for a DID, but only while it is live.
    pub fn get_and_check_transport(&self, did: Did) -> (r: Option<&Connection>)
        ensures
            (match reg_lookup(self.reg(), did) {
                None => r is None,
                Some(c) => {
                    if c.state is Connected {
                        r matches Some(rc) && *rc == c
                    } else {
                        r is None
                    }
                },
            }),
    {
        proof {
            reg_index_of_props(self.registry@, did);
        }
        match self.registry_index(did) {
            None => None,
            Some(i) => {
                if self.registry[i].1.is_connected() {
                    Some(&self.registry[i].1)
                } else {
                    None
                }
            },
        }
    }

    /// Keep an existing live slot, or admit the given connected default.
    /// A default that is not connected is rejected.
    pub fn get_or_register(&mut self, did: Did, default: Connection) -> (r: Result<u128, Error>)
        requires
            old(self).wf(),
            default.wf(),
            default.id < old(self).id_horizon,
            forall|j: int|
                0 <= j < old(self).pend().len() ==> (#[trigger] old(self).pend()[j]).id
                    != default.id,
        ensures
            final(self).wf(),
            (!(default.state is Connected) ==> r == Err::<u128, Error>(
                Error::Transport(TransportError::NotConnected),
            ) && *final(self) == *old(self)),
            (default.state is Connected ==> (match reg_lookup(old(self).reg(), did) {
                Some(c) => r == Ok::<u128, Error>(c.id) && *final(self) == *old(self),
                None => r == Ok::<u128, Error>(default.id) && final(self).reg() == old(self).reg().push((did, default)) && final(self).pend() == old(self).pend() && final(self).ret() == old(self).ret() && final(self).evs() == old(self).evs()
                    && Swarm::same_config(*final(self), *old(self)),
            })),
    {
        if !default.is_connected() {
            return Err(Error::Transport(TransportError::NotConnected));
        }
        proof {
            reg_index_of_props(self.registry@, did);
        }
        match self.registry_index(did) {
            Some(i) => Ok(self.registry[i].1.id),
            None => {
                let id = default.id;
                self.registry.push((did, default));
                proof {
                    assert(forall|a: int|
                        0 <= a < old(self).registry@.len() ==> self.registry@[a] == #[trigger] old(self).registry@[a]);
                    assert(self.registry@[old(self).registry@.len() as int] == (did, default));
                    assert forall|a: int, j: int|
                        0 <= a < self.registry@.len() && 0 <= j < self.pending@.len() implies (
                    #[trigger] self.registry@[a]).1.id != (#[trigger] self.pending@[j]).id by {
                        assert(self.pending@[j] == old(self).pending@[j]);
                        assert(old(self).pend()[j] == old(self).pending@[j]);
                        if a == old(self).registry@.len() {
                            assert(self.registry@[a] == (did, default));
                        } else {
                            assert(self.registry@[a] == old(self).registry@[a]);
                        }
                    }
                    assert forall|a: int|
                        0 <= a < self.registry@.len() implies (#[trigger] self.registry@[a]).1.id
                        < self.id_horizon by {
                        if a == old(self).registry@.len() {
                            assert(self.registry@[a] == (did, default));
                        }
                    }
                    assert forall|a: int|
                        0 <= a < self.registry@.len() implies (#[trigger] self.registry@[a]).1.wf()
                        by {
                        if a == old(self).registry@.len() {
                            assert(self.registry@[a] == (did, default));
                        }
                    }
                }
                proof {
                    assert(reg_unique(self.registry@)) by {
                        assert(forall|a: int|
                            0 <= a < old(self).registry@.len() ==> (
                            #[trigger] old(self).registry@[a]).0 != did);
                    }
                }
                Ok(id)
            },
        }
    }

    /// Remove and close the slot for a DID; the closure is also announced
    /// on the event queue, as the backend callback would.
    pub fn disconnect(&mut self, did: Did) -> (r: Result<(), Error>)
        requires
            old(self).wf(),
        ensures
            final(self).wf(),
            (match reg_lookup(old(self).reg(), did) {
                None => r == Err::<(), Error>(Error::ConnectionNotFound) && *final(self) == *old(self),
                Some(c) => r is Ok && final(self).reg() == old(self).reg().remove(
                    reg_index_of(old(self).reg(), did),
                ) && final(self).ret() == old(self).ret().push(closed_of(c)) && final(self).evs()
                    == old(self).evs().push(Event::ConnectClosed(did, c.id)) && final(self).pend()
                    == old(self).pend() && Swarm::same_config(*final(self), *old(self)),
            }),
    {
        proof {
            reg_index_of_props(self.registry@, did);
        }
        match self.registry_index(did) {
            None => Err(Error::ConnectionNotFound),
            Some(i) => {
                let (d0, mut prev) = self.registry.remove(i);
                let id = prev.id;
                let ghost prev0 = prev;
                prev.close();
                proof {
                    assert(prev == closed_of(prev0));
                }
                self.retired.push(prev);
                self.events.push(Event::ConnectClosed(did, id));
                proof {
                    assert(reg_unique(self.registry@)) by {
                        assert(forall|a: int|
                            0 <= a < self.registry@.len() ==> (#[trigger] self.registry@[a]) == (
                            if a < i {
                                old(self).registry@[a]
                            } else {
                                old(self).registry@[a + 1]
                            }));
                    }
                }
                Ok(())
            },
        }
    }

    /// Track a connection whose offer is in flight. Its id must be fresh:
    /// pending entries and registry slots stay disjoint per connection id.
    pub fn push_pending_transport(&mut self, conn: Connection) -> (r: Result<(), Error>)
        requires
            old(self).wf(),
            conn.wf(),
            conn.id < old(self).id_horizon,
            forall|j: int|
                0 <= j < old(self).pend().len() ==> (#[trigger] old(self).pend()[j]).id != conn.id,
            forall|i: int|
                0 <= i < old(self).reg().len() ==> (#[trigger] old(self).reg()[i]).1.id != conn.id,
        ensures
            r is Ok,
            final(self).wf(),
            final(self).pend() == old(self).pend().push(conn),
            final(self).reg() == old(self).reg(),
            final(self).ret() == old(self).ret(),
            final(self).evs() == old(self).evs(),
            Swarm::same_config(*final(self), *old(self)),
    {
        self.pending.push(conn);
        proof {
            let n0 = old(self).pending@.len() as int;
            assert(forall|a: int|
                0 <= a < n0 ==> self.pending@[a] == #[trigger] old(self).pending@[a]);
            assert(self.pending@[n0] == conn);
            assert forall|i: int, j: int|
                0 <= i < self.pending@.len() && 0 <= j < self.pending@.len() && i != j implies (
            #[trigger] self.pending@[i]).id != (#[trigger] self.pending@[j]).id by {
                if i == n0 {
                    assert(self.pending@[i] == conn);
                } else {
                    assert(self.pending@[i] == old(self).pending@[i]);
                    assert(old(self).pend()[i] == old(self).pending@[i]);
                }
                if j == n0 {
                    assert(self.pending@[j] == conn);
                } else {
                    assert(self.pending@[j] == old(self).pending@[j]);
                    assert(old(self).pend()[j] == old(self).pending@[j]);
                }
            }
            assert forall|i: int, j: int|
                0 <= i < self.registry@.len() && 0 <= j < self.pending@.len() implies (
            #[trigger] self.registry@[i]).1.id != (#[trigger] self.pending@[j]).id by {
                assert(self.registry@[i] == old(self).registry@[i]);
                assert(old(self).reg()[i] == old(self).registry@[i]);
                if j == n0 {
                    assert(self.pending@[j] == conn);
                } else {
                    assert(self.pending@[j] == old(self).pending@[j]);
                    assert(old(self).pend()[j] == old(self).pending@[j]);
                }
            }
            assert forall|j: int|
                0 <= j < self.pending@.len() implies (#[trigger] self.pending@[j]).id
                < self.id_horizon by {
                if j == n0 {
                    assert(self.pending@[j] == conn);
                }
            }
            assert forall|j: int|
                0 <= j < self.pending@.len() implies (#[trigger] self.pending@[j]).wf() by {
                if j == n0 {
                    assert(self.pending@[j] == conn);
                }
            }
        }
        Ok(())
    }

    /// Drop a pending connection by id, closing it: the explicit
    /// garbage-collection of a stale in-flight offer.
    pub fn pop_pending_transport(&mut self, transport_id: u128) -> (r: Result<(), Error>)
        requires
            old(self).wf(),
        ensures
            final(self).wf(),
            (pend_index_of(old(self).pend(), transport_id) < 0 ==> r == Err::<(), Error>(
                Error::SwarmPendingTransNotFound,
            ) && *final(self) == *old(self)),
            (pend_index_of(old(self).pend(), transport_id) >= 0 ==> r is Ok && final(self).pend()
                == old(self).pend().remove(pend_index_of(old(self).pend(), transport_id)) && final(self).ret() == old(self).ret().push(
                closed_of(old(self).pend()[pend_index_of(old(self).pend(), transport_id)]),
            ) && final(self).reg() == old(self).reg() && final(self).evs() == old(self).evs()
                && Swarm::same_config(*final(self), *old(self))),
    {
        proof {
            pend_index_of_props(self.pending@, transport_id);
        }
        match self.pending_index(transport_id) {
            None => Err(Error::SwarmPendingTransNotFound),
            Some(i) => {
                let mut c = self.pending.remove(i);
                let ghost c0 = c;
                c.close();
                proof {
                    assert(c == closed_of(c0));
                }
                self.retired.push(c);
                Ok(())
            },
        }
    }

    /// The ids of the connections whose offers are in flight.
    pub fn pending_transports(&self) -> (r: Vec<u128>)
        ensures
            r@.len() == self.pend().len(),
            forall|i: int| 0 <= i < r@.len() ==> r@[i] == (#[trigger] self.pend()[i]).id,
    {
        let mut out: Vec<u128> = Vec::new();
        let n = self.pending.len();
        let mut i: usize = 0;
        while i < n
            invariant
                n == self.pending@.len(),
                i <= n,
                out@.len() == i,
                forall|j: int| 0 <= j < i ==> out@[j] == (#[trigger] self.pending@[j]).id,
            decreases n - i,
        {
            out.push(self.pending[i].id);
            i = i + 1;
        }
        out
    }

    /// The pending connection with this id, if any.
    pub fn find_pending_transport(&self, id: u128) -> (r: Option<&Connection>)
        ensures
            (match r {
                Some(c) => pend_index_of(self.pend(), id) >= 0 && *c == self.pend()[pend_index_of(
                    self.pend(),
                    id,
                )],
                None => pend_index_of(self.pend(), id) < 0,
            }),
    {
        proof {
            pend_index_of_props(self.pending@, id);
        }
        match self.pending_index(id) {
            None => None,
            Some(i) => Some(&self.pending[i]),
        }
    }

    /// The DIDs that currently hold registry slots, in slot order.
    pub fn transport_dids(&self) -> (r: Vec<Did>)
        ensures
            r@.len() == self.reg().len(),
            forall|i: int| 0 <= i < r@.len() ==> r@[i] == (#[trigger] self.reg()[i]).0,
    {
        let mut out: Vec<Did> = Vec::new();
        let n = self.registry.len();
        let mut i: usize = 0;
        while i < n
            invariant
                n == self.registry@.len(),
                i <= n,
                out@.len() == i,
                forall|j: int| 0 <= j < i ==> out@[j] == (#[trigger] self.registry@[j]).0,
            decreases n - i,
        {
            out.push(self.registry[i].0);
            i = i + 1;
        }
        out
    }

    /// Whether the swarm holds a connection with this id anywhere, and in
    /// which state: the registry first, then pending, then retired. A
    /// `None` means no owned connection bears the id.
    pub fn connection_state(&self, id: u128) -> (r: Option<ConnectionState>)
        ensures
            (match r {
                Some(st) => (exists|i: int|
                    0 <= i < self.reg().len() && (#[trigger] self.reg()[i]).1.id == id
                        && self.reg()[i].1.state == st) || (exists|i: int|
                    0 <= i < self.pend().len() && (#[trigger] self.pend()[i]).id == id
                        && self.pend()[i].state == st) || (exists|i: int|
                    0 <= i < self.ret().len() && (#[trigger] self.ret()[i]).id == id
                        && self.ret()[i].state == st),
                None => (forall|i: int|
                    0 <= i < self.reg().len() ==> (#[trigger] self.reg()[i]).1.id != id) && (
                forall|i: int|
                    0 <= i < self.pend().len() ==> (#[trigger] self.pend()[i]).id != id) && (
                forall|i: int| 0 <= i < self.ret().len() ==> (#[trigger] self.ret()[i]).id != id),
            }),
    {
        let n1 = self.registry.len();
        let mut i: usize = 0;
        while i < n1
            invariant
                n1 == self.registry@.len(),
                i <= n1,
                forall|a: int| 0 <= a < i ==> (#[trigger] self.registry@[a]).1.id != id,
            decreases n1 - i,
        {
            if self.registry[i].1.id == id {
                let st = self.registry[i].1.state;
                proof {
                    assert((#[trigger] self.reg()[i as int]).1.id == id && self.reg()[
                        i as int
                    ].1.state == st);
                }
                return Some(st);
            }
            i = i + 1;
        }
        let n2 = self.pending.len();
        let mut j: usize = 0;
        while j < n2
            invariant
                n2 == self.pending@.len(),
                j <= n2,
                forall|a: int| 0 <= a < self.registry@.len() ==> (#[trigger] self.registry@[a]).1.id != id,
                forall|a: int| 0 <= a < j ==> (#[trigger] self.pending@[a]).id != id,
            decreases n2 - j,
        {
            if self.pending[j].id == id {
                let st = self.pending[j].state;
                proof {
                    assert((#[trigger] self.pend()[j as int]).id == id && self.pend()[
                        j as int
                    ].state == st);
                }
                return Some(st);
            }
            j = j + 1;
        }
        let n3 = self.retired.len();
        let mut k: usize = 0;
        while k < n3
            invariant
                n3 == self.retired@.len(),
                k <= n3,
                forall|a: int| 0 <= a < self.registry@.len() ==> (#[trigger] self.registry@[a]).1.id != id,
                forall|a: int| 0 <= a < self.pending@.len() ==> (#[trigger] self.pending@[a]).id != id,
                forall|a: int| 0 <= a < k ==> (#[trigger] self.retired@[a]).id != id,
            decreases n3 - k,
        {
            if self.retired[k].id == id {
                let st = self.retired[k].state;
                proof {
                    assert((#[trigger] self.ret()[k as int]).id == id && self.ret()[
                        k as int
                    ].state == st);
                }
                return Some(st);
            }
            k = k + 1;
        }
        None
    }
}

impl Swarm {
    /// Encode a payload and write it on the live connection registered for
    /// `did`: the outbound half of the dispatch loop.
    pub fn do_send_payload(&mut self, did: Did, payload: &MessagePayload) -> (r: Result<(), Error>)
        requires
            old(self).wf(),
            payload.wf(),
        ensures
            final(self).wf(),
            (match reg_lookup(old(self).reg(), did) {
                None => r == Err::<(), Error>(Error::MissDidInTable(did)) && *final(self) == *old(self),
                Some(c) => {
                    if c.state is Connected {
                        &&& r is Ok
                        &&& final(self).reg().len() == old(self).reg().len()
                        &&& (forall|j: int|
                            0 <= j < old(self).reg().len() && j != reg_index_of(
                                old(self).reg(),
                                did,
                            ) ==> final(self).reg()[j] == #[trigger] old(self).reg()[j])
                        &&& ({
                            let i = reg_index_of(old(self).reg(), did);
                            let c2 = final(self).reg()[i].1;
                            &&& final(self).reg()[i].0 == did
                            &&& c2.id == c.id
                            &&& c2.peer == c.peer
                            &&& c2.state == c.state
                            &&& c2.close_count == c.close_count
                            &&& c2.remote_sdp == c.remote_sdp
                            &&& c2.sent@.len() == c.sent@.len() + 1
                            &&& c2.sent@.last()@ == crate::payload::enc_payload(*payload)
                            &&& (forall|j: int|
                                0 <= j < c.sent@.len() ==> c2.sent@[j] == #[trigger] c.sent@[j])
                        })
                        &&& final(self).pend() == old(self).pend()
                        &&& final(self).ret() == old(self).ret()
                        &&& final(self).evs() == old(self).evs()
                        &&& Swarm::same_config(*final(self), *old(self))
                    } else {
                        r == Err::<(), Error>(Error::MissDidInTable(did)) && *final(self) == *old(self)
                    }
                },
            }),
    {
        proof {
            reg_index_of_props(self.registry@, did);
        }
        match self.registry_index(did) {
            None => Err(Error::MissDidInTable(did)),
            Some(i) => {
                if !self.registry[i].1.is_connected() {
                    return Err(Error::MissDidInTable(did));
                }
                let data = payload.encode();
                let (d0, mut c) = self.registry.remove(i);
                let res = c.send_message(&data);
                self.registry.insert(i, (d0, c));
                proof {
                    assert(self.registry@ =~= old(self).registry@.update(
                        i as int,
                        self.registry@[i as int],
                    ));
                    assert(reg_unique(self.registry@)) by {
                        assert(forall|a: int|
                            0 <= a < self.registry@.len() ==> (#[trigger] self.registry@[a]).0
                                == old(self).registry@[a].0);
                    }
                }
                res
            },
        }
    }

    /// Wrap a body in a freshly signed payload and write it to the live
    /// connection for the destination: on success exactly one frame, the
    /// canonical encoding of that signed payload, lands on its channel.
    pub fn send_message(&mut self, msg: Message, destination: Did) -> (r: Result<(), Error>)
        requires
            old(self).wf(),
            msg.wf(),
        ensures
            final(self).wf(),
            final(self).pend() == old(self).pend(),
            final(self).ret() == old(self).ret(),
            final(self).evs() == old(self).evs(),
            Swarm::same_config(*final(self), *old(self)),
            (match reg_lookup(old(self).reg(), destination) {
                Some(c) => {
                    if c.state is Connected {
                        &&& r is Ok
                        &&& ({
                            let i = reg_index_of(old(self).reg(), destination);
                            let c2 = final(self).reg()[i].1;
                            &&& final(self).reg().len() == old(self).reg().len()
                            &&& (forall|j: int|
                                0 <= j < old(self).reg().len() && j != i ==> final(self).reg()[j]
                                    == #[trigger] old(self).reg()[j])
                            &&& final(self).reg()[i].0 == destination
                            &&& c2.id == c.id
                            &&& c2.peer == c.peer
                            &&& c2.state == c.state
                            &&& c2.close_count == c.close_count
                            &&& c2.remote_sdp == c.remote_sdp
                            &&& c2.sent@.len() == c.sent@.len() + 1
                            &&& (forall|j: int|
                                0 <= j < c.sent@.len() ==> c2.sent@[j] == #[trigger] c.sent@[j])
                            &&& (exists|p: MessagePayload|
                                #![trigger signed_frame_from(
                                    c2.sent@.last()@,
                                    old(self).node_did,
                                    old(self).session_manager.token,
                                    old(self).session_manager.ttl_ms,
                                    destination,
                                    p,
                                )]
                                signed_frame_from(
                                    c2.sent@.last()@,
                                    old(self).node_did,
                                    old(self).session_manager.token,
                                    old(self).session_manager.ttl_ms,
                                    destination,
                                    p,
                                ) && p.body == msg)
                        })
                    } else {
                        r == Err::<(), Error>(Error::MissDidInTable(destination)) && *final(self)
                            == *old(self)
                    }
                },
                None => r == Err::<(), Error>(Error::MissDidInTable(destination)) && *final(self)
                    == *old(self),
            }),
    {
        let sm = self.session_manager;
        let nd = self.node_did;
        let payload = MessagePayload::new_send_hop(msg, &sm, nd, destination, Some(destination));
        let res = self.do_send_payload(destination, &payload);
        proof {
            reg_index_of_props(old(self).registry@, destination);
            if res is Ok {
                let i = reg_index_of(old(self).reg(), destination);
                assert(signed_frame_from(
                    final(self).reg()[i].1.sent@.last()@,
                    old(self).node_did,
                    old(self).session_manager.token,
                    old(self).session_manager.ttl_ms,
                    destination,
                    payload,
                ));
            }
        }
        res
    }

    /// Dispatch one backend event: decode and check an arriving frame,
    /// admit a pending connection whose channel opened, or clear the slot
    /// of one that closed. The synthetic join and leave payloads tell the
    /// routing layer what changed.
    #[verifier::rlimit(100)]
    #[verifier::spinoff_prover]
    fn load_message(&mut self, ev: Event) -> (r: Result<Option<MessagePayload>, Error>)
        requires
            old(self).wf(),
        ensures
            final(self).wf(),
            final(self).evs() == old(self).evs(),
            Swarm::same_config(*final(self), *old(self)),
            (ev matches Event::ReceiveMessage(bytes) ==> *final(self) == *old(self) && (match r {
                Ok(Some(p)) => bytes@ == crate::payload::enc_payload(p) && p.wf() && p.signed_ok(),
                Ok(None) => false,
                Err(e) => e == Error::DecodeError || e == Error::VerifySignatureFailed,
            })),
            (ev matches Event::RegisterTransport(did, id) ==> ({
                let pi = pend_index_of(old(self).pend(), id);
                &&& (pi >= 0 ==> final(self).pend() == old(self).pend().remove(pi) && final(self).reg() == register_reg(old(self).reg(), did, old(self).pend()[pi]) && final(self).ret() == register_retired(old(self).reg(), old(self).ret(), did))
                &&& (pi < 0 ==> final(self).pend() == old(self).pend() && final(self).reg() == old(self).reg() && final(self).ret() == old(self).ret())
                &&& (match r {
                    Ok(Some(p)) => reg_lookup(final(self).reg(), did) is Some && p.body
                        == Message::JoinDHT(JoinDHT { id: did }) && p.envelope.method is SEND
                        && p.envelope.path@ == seq![old(self).node_did] && p.envelope.destination
                        == old(self).node_did && p.signed_ok(),
                    Ok(None) => false,
                    Err(e) => e == Error::SwarmMissTransport(did) && reg_lookup(
                        final(self).reg(),
                        did,
                    ) is None,
                })
            })),
            (ev matches Event::ConnectClosed(did, id) ==> ({
                let pi = pend_index_of(old(self).pend(), id);
                &&& (pi >= 0 ==> final(self).pend() == old(self).pend().remove(pi))
                &&& (pi < 0 ==> final(self).pend() == old(self).pend())
                &&& (match reg_lookup(old(self).reg(), did) {
                    Some(c) => {
                        if c.id == id {
                            final(self).reg() == old(self).reg().remove(
                                reg_index_of(old(self).reg(), did),
                            ) && (match r {
                                Ok(Some(p)) => p.body == Message::LeaveDHT(LeaveDHT { id: did })
                                    && p.signed_ok(),
                                _ => false,
                            })
                        } else {
                            final(self).reg() == old(self).reg() && r == Ok::<
                                Option<MessagePayload>,
                                Error,
                            >(None)
                        }
                    },
                    None => final(self).reg() == old(self).reg() && r == Ok::<
                        Option<MessagePayload>,
                        Error,
                    >(None),
                })
            })),
    {
        match ev {
            Event::ReceiveMessage(bytes) => {
                let payload = match MessagePayload::decode(&bytes) {
                    Ok(p) => p,
                    Err(_) => {
                        return Err(Error::DecodeError);
                    },
                };
                if !payload.verify() {
                    return Err(Error::VerifySignatureFailed);
                }
                Ok(Some(payload))
            },
            Event::RegisterTransport(did, id) => {
                proof {
                    pend_index_of_props(self.pending@, id);
                }
                match self.pending_index(id) {
                    Some(i) => {
                        let c = self.pending.remove(i);
                        proof {
                            assert(forall|j: int|
                                0 <= j < self.pending@.len() ==> (#[trigger] self.pending@[j]) == (
                                if j < i {
                                    old(self).pending@[j]
                                } else {
                                    old(self).pending@[j + 1]
                                }));
                            assert(forall|j: int|
                                0 <= j < self.pending@.len() ==> (#[trigger] self.pending@[j]).id
                                    != c.id);
                        }
                        let _ = self.register(did, c);
                    },
                    None => {},
                }
                proof {
                    reg_index_of_props(self.registry@, did);
                }
                match self.registry_index(did) {
                    Some(_) => {
                        let sm = self.session_manager;
                        let nd = self.node_did;
                        let p = MessagePayload::new_send(
                            Message::JoinDHT(JoinDHT { id: did }),
                            &sm,
                            nd,
                            nd,
                        );
                        Ok(Some(p))
                    },
                    None => Err(Error::SwarmMissTransport(did)),
                }
            },
            Event::ConnectClosed(did, id) => {
                proof {
                    pend_index_of_props(self.pending@, id);
                }
                match self.pending_index(id) {
                    Some(i) => {
                        let mut c = self.pending.remove(i);
                        let ghost c0 = c;
                        c.close();
                        proof {
                            assert(c == closed_of(c0));
                        }
                        self.retired.push(c);
                    },
                    None => {},
                }
                proof {
                    reg_index_of_props(self.registry@, did);
                }
                match self.registry_index(did) {
                    Some(i) => {
                        if self.registry[i].1.id == id {
                            let (d0, mut prev) = self.registry.remove(i);
                            let ghost prev0 = prev;
                            prev.close();
                            proof {
                                assert(prev == closed_of(prev0));
                                assert(reg_unique(self.registry@)) by {
                                    assert(forall|a: int|
                                        0 <= a < self.registry@.len() ==> (
                                        #[trigger] self.registry@[a]) == (if a < i {
                                            old(self).registry@[a]
                                        } else {
                                            old(self).registry@[a + 1]
                                        }));
                                }
                            }
                            self.retired.push(prev);
                            let sm = self.session_manager;
                            let nd = self.node_did;
                            Ok(
                                Some(
                                    MessagePayload::new_send(
                                        Message::LeaveDHT(LeaveDHT { id: did }),
                                        &sm,
                                        nd,
                                        nd,
                                    ),
                                ),
                            )
                        } else {
                            Ok(None)
                        }
                    },
                    None => Ok(None),
                }
            },
        }
    }

    /// Drain one event from the queue and dispatch it, as `dispatched`
    /// spells out: an arriving frame is decoded and signature-checked; a
    /// registration event moves its pending connection into the registry
    /// and reports the join; a close event clears the slot and reports the
    /// leave. Anything dropped (bad signature, unparseable bytes, stale
    /// events) yields nothing.
    pub fn poll_message(&mut self) -> (r: Option<MessagePayload>)
        requires
            old(self).wf(),
        ensures
            final(self).wf(),
            Swarm::same_config(*final(self), *old(self)),
            (old(self).evs().len() == 0 ==> r is None && *final(self) == *old(self)),
            (old(self).evs().len() > 0 ==> final(self).evs() == old(self).evs().drop_first()
                && dispatched(*old(self), *final(self), old(self).evs()[0], r)),
    {
        if self.events.len() == 0 {
            return None;
        }
        let ev = self.events.remove(0);
        let ghost gev = ev;
        proof {
            assert(self.events@ =~= old(self).events@.drop_first());
            assert(gev == old(self).evs()[0]);
        }
        let ghost mid = *self;
        let res = self.load_message(ev);
        proof {
            assert(mid.reg() == old(self).reg());
            assert(mid.pend() == old(self).pend());
            assert(mid.ret() == old(self).ret());
            assert(mid.node_did == old(self).node_did);
        }
        match res {
            Ok(Some(p)) => {
                proof {
                    assert(dispatched(*old(self), *self, gev, Some(p)));
                }
                Some(p)
            },
            Ok(None) => {
                proof {
                    assert(dispatched(*old(self), *self, gev, Option::<MessagePayload>::None));
                }
                None
            },
            Err(_) => {
                proof {
                    assert(dispatched(*old(self), *self, gev, Option::<MessagePayload>::None));
                }
                None
            },
        }
    }
}


impl Swarm {
    /// First leg of the handshake at the initiator: refuse a peer already
    /// live, build a fresh connection, produce its offer, and leave it on
    /// the pending list until the channel opens.
    pub fn prepare_connection_offer(&mut self, peer: Did) -> (r: Result<
        (u128, ConnectNodeSend),
        Error,
    >)
        requires
            old(self).wf(),
            old(self).id_horizon < u128::MAX,
        ensures
            final(self).wf(),
            ((reg_lookup(old(self).reg(), peer) matches Some(c) && c.state is Connected) ==> r
                == Err::<(u128, ConnectNodeSend), Error>(Error::AlreadyConnected) && *final(self)
                == *old(self)),
            (!(reg_lookup(old(self).reg(), peer) matches Some(c) && c.state is Connected) ==> (
            match r {
                Ok((cid, msg)) => {
                    &&& msg.sdp@ == sdp_offer(peer)
                    &&& final(self).pend().len() == old(self).pend().len() + 1
                    &&& (forall|j: int|
                        0 <= j < old(self).pend().len() ==> final(self).pend()[j] == #[trigger] old(self).pend()[j])
                    &&& ({
                        let c = final(self).pend().last();
                        c.peer == peer && c.state is New && c.id == cid && c.sent@.len() == 0
                    })
                    &&& final(self).reg() == old(self).reg()
                    &&& final(self).ret() == old(self).ret()
                    &&& final(self).evs() == old(self).evs()
                    &&& Swarm::same_config(*final(self), *old(self))
                },
                Err(_) => false,
            })),
    {
        match self.get_and_check_transport(peer) {
            Some(_) => {
                return Err(Error::AlreadyConnected);
            },
            None => {},
        }
        let conn = self.new_transport(peer);
        let cid = conn.id;
        let offer = conn.webrtc_create_offer();
        let _ = self.push_pending_transport(conn);
        Ok((cid, ConnectNodeSend { sdp: offer }))
    }

    /// First leg at the responder: refuse a peer already live, build the
    /// answering connection, open its channel, and queue the registration
    /// event the open channel fires.
    pub fn answer_remote_connection(&mut self, peer: Did, offer_msg: &ConnectNodeSend) -> (r:
        Result<(u128, ConnectNodeReport), Error>)
        requires
            old(self).wf(),
            old(self).id_horizon < u128::MAX,
        ensures
            final(self).wf(),
            ((reg_lookup(old(self).reg(), peer) matches Some(c) && c.state is Connected) ==> r
                == Err::<(u128, ConnectNodeReport), Error>(Error::AlreadyConnected) && *final(self)
                == *old(self)),
            (!(reg_lookup(old(self).reg(), peer) matches Some(c) && c.state is Connected) ==> (
            match r {
                Ok((cid, msg)) => {
                    &&& msg.sdp@ == sdp_answer(peer)
                    &&& final(self).pend().len() == old(self).pend().len() + 1
                    &&& (forall|j: int|
                        0 <= j < old(self).pend().len() ==> final(self).pend()[j] == #[trigger] old(self).pend()[j])
                    &&& ({
                        let c = final(self).pend().last();
                        &&& c.peer == peer
                        &&& c.state is Connected
                        &&& c.id == cid
                        &&& (c.remote_sdp matches Some(sd) && sd@ == offer_msg.sdp@)
                    })
                    &&& final(self).evs() == old(self).evs().push(
                        Event::RegisterTransport(peer, cid),
                    )
                    &&& final(self).reg() == old(self).reg()
                    &&& final(self).ret() == old(self).ret()
                    &&& Swarm::same_config(*final(self), *old(self))
                },
                Err(_) => false,
            })),
    {
        match self.get_and_check_transport(peer) {
            Some(_) => {
                return Err(Error::AlreadyConnected);
            },
            None => {},
        }
        let mut conn = self.new_transport(peer);
        let cid = conn.id;
        let answer = conn.webrtc_answer_offer(&offer_msg.sdp);
        self.events.push(Event::RegisterTransport(peer, cid));
        let _ = self.push_pending_transport(conn);
        Ok((cid, ConnectNodeReport { sdp: answer }))
    }

    /// Final leg at the initiator: find the pending offer for the peer,
    /// take the answer, open the channel, and queue its registration.
    pub fn accept_remote_connection(&mut self, peer: Did, answer_msg: &ConnectNodeReport) -> (r:
        Result<u128, Error>)
        requires
            old(self).wf(),
        ensures
            final(self).wf(),
            (pend_peer_index_of(old(self).pend(), peer) < 0 ==> r == Err::<u128, Error>(
                Error::ConnectionNotFound,
            ) && *final(self) == *old(self)),
            (pend_peer_index_of(old(self).pend(), peer) >= 0 ==> ({
                let i = pend_peer_index_of(old(self).pend(), peer);
                let c = old(self).pend()[i];
                &&& (!(c.state is New) ==> r == Err::<u128, Error>(Error::AlreadyConnected)
                    && *final(self) == *old(self))
                &&& (c.state is New ==> r == Ok::<u128, Error>(c.id) && final(self).pend().len()
                    == old(self).pend().len() && (forall|j: int|
                    0 <= j < old(self).pend().len() && j != i ==> final(self).pend()[j]
                        == #[trigger] old(self).pend()[j]) && ({
                    let c2 = final(self).pend()[i];
                    &&& c2.id == c.id
                    &&& c2.peer == c.peer
                    &&& c2.state is Connected
                    &&& (c2.remote_sdp matches Some(sd) && sd@ == answer_msg.sdp@)
                }) && final(self).evs() == old(self).evs().push(Event::RegisterTransport(peer, c.id))
                    && final(self).reg() == old(self).reg() && final(self).ret() == old(self).ret()
                    && Swarm::same_config(*final(self), *old(self)))
            })),
    {
        proof {
            pend_peer_index_of_props(self.pending@, peer);
        }
        match self.pending_peer_index(peer) {
            None => Err(Error::ConnectionNotFound),
            Some(i) => {
                let st = self.pending[i].ice_connection_state();
                if st != ConnectionState::New {
                    return Err(Error::AlreadyConnected);
                }
                let mut c = self.pending.remove(i);
                let cid = c.id;
                c.webrtc_accept_answer(&answer_msg.sdp);
                self.pending.insert(i, c);
                proof {
                    assert(self.pending@ =~= old(self).pending@.update(
                        i as int,
                        self.pending@[i as int],
                    ));
                }
                self.events.push(Event::RegisterTransport(peer, cid));
                Ok(cid)
            },
        }
    }

    /// Prepare an offer and wrap it in a signed payload addressed to the
    /// peer, with the peer as the next hop.
    pub fn create_offer(&mut self, peer: Did) -> (r: Result<(u128, MessagePayload), Error>)
        requires
            old(self).wf(),
            old(self).id_horizon < u128::MAX,
        ensures
            final(self).wf(),
            ((reg_lookup(old(self).reg(), peer) matches Some(c) && c.state is Connected) ==> r
                == Err::<(u128, MessagePayload), Error>(Error::AlreadyConnected) && *final(self)
                == *old(self)),
            (!(reg_lookup(old(self).reg(), peer) matches Some(c) && c.state is Connected) ==> (
            match r {
                Ok((cid, payload)) => {
                    &&& (payload.body matches Message::ConnectNodeSend(m) && m.sdp@ == sdp_offer(
                        peer,
                    ))
                    &&& payload.envelope.method is SEND
                    &&& payload.envelope.path@ == seq![old(self).node_did]
                    &&& payload.envelope.path_end_cursor == 0
                    &&& payload.envelope.destination == peer
                    &&& payload.envelope.next_hop == Some(peer)
                    &&& payload.session_pubkey == old(self).session_manager.token
                    &&& payload.signed_ok()
                    &&& final(self).pend().len() == old(self).pend().len() + 1
                    &&& ({
                        let c = final(self).pend().last();
                        c.peer == peer && c.state is New && c.id == cid
                    })
                    &&& final(self).reg() == old(self).reg()
                    &&& final(self).evs() == old(self).evs()
                },
                Err(_) => false,
            })),
    {
        let nd = self.node_did;
        let sm = self.session_manager;
        let (cid, msg) = match self.prepare_connection_offer(peer) {
            Ok(x) => x,
            Err(e) => {
                return Err(e);
            },
        };
        proof {
            crate::transport::lemma_sdp_safe(peer);
        }
        let payload = MessagePayload::new_send_hop(
            Message::ConnectNodeSend(msg),
            &sm,
            nd,
            peer,
            Some(peer),
        );
        Ok((cid, payload))
    }

    /// Check an arriving offer payload, answer it, and wrap the answer in
    /// a signed payload addressed back to the offerer.
    pub fn answer_offer(&mut self, offer_payload: MessagePayload) -> (r: Result<
        (u128, MessagePayload),
        Error,
    >)
        requires
            old(self).wf(),
            old(self).id_horizon < u128::MAX,
            offer_payload.envelope.path@.len() > 0,
            offer_payload.wf(),
        ensures
            final(self).wf(),
            (r is Err ==> *final(self) == *old(self)),
            (!offer_payload.signed_ok() ==> r == Err::<(u128, MessagePayload), Error>(
                Error::VerifySignatureFailed,
            )),
            (match r {
                Ok((cid, payload)) => {
                    &&& offer_payload.signed_ok()
                    &&& offer_payload.body is ConnectNodeSend
                    &&& ({
                        let peer = offer_payload.envelope.path@[0];
                        &&& (payload.body matches Message::ConnectNodeReport(m) && m.sdp@
                            == sdp_answer(peer))
                        &&& payload.envelope.method is SEND
                        &&& payload.envelope.path@ == seq![old(self).node_did]
                        &&& payload.envelope.destination == peer
                        &&& payload.envelope.next_hop == Some(peer)
                        &&& payload.signed_ok()
                        &&& final(self).pend().len() == old(self).pend().len() + 1
                        &&& ({
                            let c = final(self).pend().last();
                            c.peer == peer && c.state is Connected && c.id == cid
                        })
                        &&& final(self).evs() == old(self).evs().push(
                            Event::RegisterTransport(peer, cid),
                        )
                        &&& final(self).reg() == old(self).reg()
                    })
                },
                Err(e) => e == Error::VerifySignatureFailed || e == Error::InvalidMessage || e
                    == Error::AlreadyConnected,
            }),
            (offer_payload.signed_ok() && r != Err::<(u128, MessagePayload), Error>(
                Error::VerifySignatureFailed,
            ) ==> ({
                let peer = offer_payload.envelope.path@[0];
                &&& (!(offer_payload.body is ConnectNodeSend) ==> r == Err::<
                    (u128, MessagePayload),
                    Error,
                >(Error::InvalidMessage))
                &&& (offer_payload.body is ConnectNodeSend && (reg_lookup(old(self).reg(), peer)
                    matches Some(c) && c.state is Connected) ==> r == Err::<
                    (u128, MessagePayload),
                    Error,
                >(Error::AlreadyConnected))
                &&& (offer_payload.body is ConnectNodeSend && !(reg_lookup(old(self).reg(), peer)
                    matches Some(c) && c.state is Connected) ==> r is Ok)
            })),
    {
        if !offer_payload.verify() {
            return Err(Error::VerifySignatureFailed);
        }
        let peer = offer_payload.envelope.origin();
        let msg = match &offer_payload.body {
            Message::ConnectNodeSend(m) => m,
            _ => {
                return Err(Error::InvalidMessage);
            },
        };
        let nd = self.node_did;
        let sm = self.session_manager;
        let (cid, report) = match self.answer_remote_connection(peer, msg) {
            Ok(x) => x,
            Err(e) => {
                return Err(e);
            },
        };
        proof {
            crate::transport::lemma_sdp_safe(peer);
        }
        let payload = MessagePayload::new_send_hop(
            Message::ConnectNodeReport(report),
            &sm,
            nd,
            peer,
            Some(peer),
        );
        Ok((cid, payload))
    }

    /// Check an arriving answer payload and finish the handshake it
    /// answers, returning the peer and the connection id.
    #[verifier::rlimit(100)]
    #[verifier::spinoff_prover]
    pub fn accept_answer(&mut self, answer_payload: MessagePayload) -> (r: Result<
        (Did, u128),
        Error,
    >)
        requires
            old(self).wf(),
            answer_payload.envelope.path@.len() > 0,
            answer_payload.wf(),
        ensures
            final(self).wf(),
            (r is Err ==> *final(self) == *old(self)),
            (!answer_payload.signed_ok() ==> r == Err::<(Did, u128), Error>(
                Error::VerifySignatureFailed,
            )),
            (match r {
                Ok((peer, cid)) => {
                    &&& answer_payload.signed_ok()
                    &&& answer_payload.body is ConnectNodeReport
                    &&& peer == answer_payload.envelope.path@[0]
                    &&& final(self).pend().len() == old(self).pend().len()
                    &&& ({
                        let i = pend_peer_index_of(old(self).pend(), peer);
                        &&& i >= 0
                        &&& cid == old(self).pend()[i].id
                        &&& ({
                            let c2 = final(self).pend()[i];
                            c2.id == cid && c2.peer == peer && c2.state is Connected
                        })
                    })
                    &&& final(self).evs() == old(self).evs().push(
                        Event::RegisterTransport(peer, cid),
                    )
                    &&& final(self).reg() == old(self).reg()
                },
                Err(e) => e == Error::VerifySignatureFailed || e == Error::InvalidMessage || e
                    == Error::ConnectionNotFound || e == Error::AlreadyConnected,
            }),
            (answer_payload.signed_ok() && r != Err::<(Did, u128), Error>(
                Error::VerifySignatureFailed,
            ) ==> ({
                let peer = answer_payload.envelope.path@[0];
                let i = pend_peer_index_of(old(self).pend(), peer);
                &&& (!(answer_payload.body is ConnectNodeReport) ==> r == Err::<
                    (Did, u128),
                    Error,
                >(Error::InvalidMessage))
                &&& (answer_payload.body is ConnectNodeReport && i < 0 ==> r == Err::<
                    (Did, u128),
                    Error,
                >(Error::ConnectionNotFound))
                &&& (answer_payload.body is ConnectNodeReport && i >= 0 && old(self).pend()[i].state
                    is New ==> r is Ok)
                &&& (answer_payload.body is ConnectNodeReport && i >= 0 && !(old(self).pend()[i].state is New) ==> r == Err::<(Did, u128), Error>(
                    Error::AlreadyConnected,
                ))
            })),
    {
        if !answer_payload.verify() {
            return Err(Error::VerifySignatureFailed);
        }
        let peer = answer_payload.envelope.origin();
        let msg = match &answer_payload.body {
            Message::ConnectNodeReport(m) => m,
            _ => {
                return Err(Error::InvalidMessage);
            },
        };
        proof {
            pend_peer_index_of_props(self.pending@, peer);
        }
        match self.accept_remote_connection(peer, msg) {
            Ok(cid) => Ok((peer, cid)),
            Err(e) => Err(e),
        }
    }

    /// Connect to a peer: reuse a live slot, or send a fresh offer towards
    /// it and leave the new connection pending.
    pub fn connect(&mut self, did: Did) -> (r: Result<u128, Error>)
        requires
            old(self).wf(),
            old(self).id_horizon < u128::MAX,
        ensures
            final(self).wf(),
            (match reg_lookup(old(self).reg(), did) {
                Some(c) => c.state is Connected ==> (match r {
                    Ok(cid) => cid == c.id && *final(self) == *old(self),
                    Err(_) => false,
                }),
                None => true,
            }),
            (!(reg_lookup(old(self).reg(), did) matches Some(c) && c.state is Connected) ==> ({
                &&& final(self).pend().len() == old(self).pend().len() + 1
                &&& (forall|j: int|
                    0 <= j < old(self).pend().len() ==> final(self).pend()[j] == #[trigger] old(self).pend()[j])
                &&& ({
                    let c = final(self).pend().last();
                    c.peer == did && c.state is New
                })
                &&& r == Err::<u128, Error>(Error::MissDidInTable(did))
                &&& final(self).reg() == old(self).reg()
                &&& final(self).ret() == old(self).ret()
                &&& final(self).evs() == old(self).evs()
                &&& Swarm::same_config(*final(self), *old(self))
            })),
    {
        self.connect_via(did, did)
    }

    /// Connect to a peer, routing the offer through the given next hop.
    /// Without the routing layer the next hop must already be live.
    pub fn connect_via(&mut self, did: Did, next_hop: Did) -> (r: Result<u128, Error>)
        requires
            old(self).wf(),
            old(self).id_horizon < u128::MAX,
        ensures
            final(self).wf(),
            (match reg_lookup(old(self).reg(), did) {
                Some(c) => c.state is Connected ==> (match r {
                    Ok(cid) => cid == c.id && *final(self) == *old(self),
                    Err(_) => false,
                }),
                None => true,
            }),
            (!(reg_lookup(old(self).reg(), did) matches Some(c) && c.state is Connected) ==> ({
                &&& final(self).pend().len() == old(self).pend().len() + 1
                &&& (forall|j: int|
                    0 <= j < old(self).pend().len() ==> final(self).pend()[j] == #[trigger] old(self).pend()[j])
                &&& ({
                    let c = final(self).pend().last();
                    c.peer == did && c.state is New
                })
                &&& final(self).ret() == old(self).ret()
                &&& final(self).evs() == old(self).evs()
                &&& Swarm::same_config(*final(self), *old(self))
                &&& (match r {
                    Ok(cid) => cid == final(self).pend().last().id,
                    Err(e) => e == Error::MissDidInTable(next_hop),
                })
                &&& (match reg_lookup(old(self).reg(), next_hop) {
                    Some(c2) => {
                        if c2.state is Connected {
                            &&& r is Ok
                            &&& ({
                                let i = reg_index_of(old(self).reg(), next_hop);
                                let c3 = final(self).reg()[i].1;
                                &&& final(self).reg().len() == old(self).reg().len()
                                &&& (forall|j: int|
                                    0 <= j < old(self).reg().len() && j != i ==> final(self).reg()[j]
                                        == #[trigger] old(self).reg()[j])
                                &&& final(self).reg()[i].0 == next_hop
                                &&& c3.id == c2.id
                                &&& c3.peer == c2.peer
                                &&& c3.state == c2.state
                                &&& c3.close_count == c2.close_count
                                &&& c3.remote_sdp == c2.remote_sdp
                                &&& c3.sent@.len() == c2.sent@.len() + 1
                                &&& (forall|j: int|
                                    0 <= j < c2.sent@.len() ==> c3.sent@[j] == #[trigger] c2.sent@[j])
                                &&& (exists|p: MessagePayload|
                                    #![trigger signed_frame_from(
                                        c3.sent@.last()@,
                                        old(self).node_did,
                                        old(self).session_manager.token,
                                        old(self).session_manager.ttl_ms,
                                        did,
                                        p,
                                    )]
                                    signed_frame_from(
                                        c3.sent@.last()@,
                                        old(self).node_did,
                                        old(self).session_manager.token,
                                        old(self).session_manager.ttl_ms,
                                        did,
                                        p,
                                    ) && (p.body matches Message::ConnectNodeSend(m) && m.sdp@
                                        == sdp_offer(did)))
                            })
                        } else {
                            r == Err::<u128, Error>(Error::MissDidInTable(next_hop)) && final(self).reg() == old(self).reg()
                        }
                    },
                    None => r == Err::<u128, Error>(Error::MissDidInTable(next_hop)) && final(self).reg() == old(self).reg(),
                })
            })),
    {
        match self.get_and_check_transport(did) {
            Some(c) => {
                let id = c.id;
                return Ok(id);
            },
            None => {},
        }
        let conn = self.new_transport(did);
        let cid = conn.id;
        let offer = conn.webrtc_create_offer();
        let _ = self.push_pending_transport(conn);
        let sm = self.session_manager;
        let nd = self.node_did;
        proof {
            crate::transport::lemma_sdp_safe(did);
        }
        let payload = MessagePayload::new_send_hop(
            Message::ConnectNodeSend(ConnectNodeSend { sdp: offer }),
            &sm,
            nd,
            did,
            Some(did),
        );
        let res = self.do_send_payload(next_hop, &payload);
        proof {
            reg_index_of_props(old(self).registry@, next_hop);
            if res is Ok {
                let i = reg_index_of(old(self).reg(), next_hop);
                assert(signed_frame_from(
                    final(self).reg()[i].1.sent@.last()@,
                    old(self).node_did,
                    old(self).session_manager.token,
                    old(self).session_manager.ttl_ms,
                    did,
                    payload,
                ));
            }
        }
        match res {
            Ok(()) => Ok(cid),
            Err(e) => Err(e),
        }
    }
}

impl Swarm {
    /// Whether the judgement hook considers a peer in good standing: true
    /// without a counter; with one, true unless more sends failed towards
    /// the peer than succeeded.
    pub open spec fn good_spec(self, did: Did) -> bool {
        match self.measure {
            None => true,
            Some(m) => {
                let i = meas_index_of(m@, did);
                i < 0 || m@[i].1.failed_to_send <= m@[i].1.sent
            },
        }
    }

    /// Bump one advisory counter for a peer, when counting is enabled.
    fn measure_record(&mut self, did: Did, counter: MeasureCounter)
        requires
            old(self).wf(),
        ensures
            final(self).wf(),
            final(self).registry == old(self).registry,
            final(self).pending == old(self).pending,
            final(self).retired == old(self).retired,
            final(self).events == old(self).events,
            final(self).node_did == old(self).node_did,
            final(self).session_manager == old(self).session_manager,
            final(self).ice_servers == old(self).ice_servers,
            final(self).external_address == old(self).external_address,
            final(self).dht_succ_max == old(self).dht_succ_max,
            final(self).hidden_service_port == old(self).hidden_service_port,
            final(self).id_horizon == old(self).id_horizon,
            measure_bumped(old(self).measure, final(self).measure, did, counter),
            old(self).measure is None ==> final(self).measure == old(self).measure,
    {
        let fresh = BehaviourCounters { connect: 0, disconnected: 0, sent: 0, failed_to_send: 0 };
        match &mut self.measure {
            None => {},
            Some(m) => {
                let ghost m0 = m@;
                let n = m.len();
                let mut i: usize = 0;
                let mut found = false;
                let mut at: usize = 0;
                while i < n && !found
                    invariant
                        n == m@.len(),
                        i <= n,
                        m@ == m0,
                        found ==> at < n && meas_index_of(m0, did) == at,
                        !found ==> forall|j: int| 0 <= j < i ==> (#[trigger] m0[j]).0 != did,
                    decreases n - i + (if found {
                        0int
                    } else {
                        1int
                    }),
                {
                    if m[i].0.same(&did) {
                        proof {
                            meas_index_of_at(m0, did, i as int);
                        }
                        found = true;
                        at = i;
                    } else {
                        i = i + 1;
                    }
                }
                if found {
                    let entry = m[at];
                    let bumped = bump_counter(entry.1, counter);
                    m.set(at, (did, bumped));
                    proof {
                        assert(m@ =~= m0.update(
                            at as int,
                            (did, bumped_counters(m0[at as int].1, counter)),
                        ));
                    }
                } else {
                    proof {
                        meas_index_of_none(m0, did);
                    }
                    m.push((did, bump_counter(fresh, counter)));
                    proof {
                        assert(m@ =~= m0.push((did, bumped_counters(fresh_counters(), counter))));
                    }
                }
            },
        }
    }

    /// Record a message successfully sent to a peer.
    pub fn record_sent(&mut self, did: Did)
        requires
            old(self).wf(),
        ensures
            final(self).wf(),
            final(self).reg() == old(self).reg(),
            final(self).pend() == old(self).pend(),
            final(self).ret() == old(self).ret(),
            final(self).evs() == old(self).evs(),
            final(self).id_horizon == old(self).id_horizon,
            measure_bumped(old(self).measure, final(self).measure, did, MeasureCounter::Sent),
            old(self).measure is None ==> *final(self) == *old(self),
    {
        self.measure_record(did, MeasureCounter::Sent)
    }

    /// Record a message that failed to go out to a peer.
    pub fn record_sent_failed(&mut self, did: Did)
        requires
            old(self).wf(),
        ensures
            final(self).wf(),
            final(self).reg() == old(self).reg(),
            final(self).pend() == old(self).pend(),
            final(self).ret() == old(self).ret(),
            final(self).evs() == old(self).evs(),
            final(self).id_horizon == old(self).id_horizon,
            measure_bumped(old(self).measure, final(self).measure, did, MeasureCounter::FailedToSend),
            old(self).measure is None ==> *final(self) == *old(self),
    {
        self.measure_record(did, MeasureCounter::FailedToSend)
    }

    /// Record a connection established with a peer.
    pub fn record_connect(&mut self, did: Did)
        requires
            old(self).wf(),
        ensures
            final(self).wf(),
            final(self).reg() == old(self).reg(),
            final(self).pend() == old(self).pend(),
            final(self).ret() == old(self).ret(),
            final(self).evs() == old(self).evs(),
            final(self).id_horizon == old(self).id_horizon,
            measure_bumped(old(self).measure, final(self).measure, did, MeasureCounter::Connect),
            old(self).measure is None ==> *final(self) == *old(self),
    {
        self.measure_record(did, MeasureCounter::Connect)
    }

    /// Record a disconnection from a peer.
    pub fn record_disconnected(&mut self, did: Did)
        requires
            old(self).wf(),
        ensures
            final(self).wf(),
            final(self).reg() == old(self).reg(),
            final(self).pend() == old(self).pend(),
            final(self).ret() == old(self).ret(),
            final(self).evs() == old(self).evs(),
            final(self).id_horizon == old(self).id_horizon,
            measure_bumped(old(self).measure, final(self).measure, did, MeasureCounter::Disconnected),
            old(self).measure is None ==> *final(self) == *old(self),
    {
        self.measure_record(did, MeasureCounter::Disconnected)
    }

    /// Whether a peer is in good standing; unconditionally true when no
    /// counter was installed.
    pub fn behaviour_good(&self, did: Did) -> (r: bool)
        ensures
            r == self.good_spec(did),
    {
        match &self.measure {
            None => true,
            Some(m) => {
                let n = m.len();
                let mut i: usize = 0;
                let mut good = true;
                let mut done = false;
                while i < n && !done
                    invariant
                        n == m@.len(),
                        i <= n,
                        !done ==> good && forall|j: int| 0 <= j < i ==> (#[trigger] m@[j]).0
                            != did,
                        done ==> meas_index_of(m@, did) >= 0 && good == (m@[meas_index_of(
                            m@,
                            did,
                        )].1.failed_to_send <= m@[meas_index_of(m@, did)].1.sent),
                    decreases n - i + (if done {
                        0int
                    } else {
                        1int
                    }),
                {
                    if m[i].0.same(&did) {
                        proof {
                            meas_index_of_at(m@, did, i as int);
                        }
                        good = m[i].1.failed_to_send <= m[i].1.sent;
                        done = true;
                    } else {
                        i = i + 1;
                    }
                }
                proof {
                    if !done {
                        meas_index_of_none(m@, did);
                    }
                }
                good
            },
        }
    }

    /// The advisory check on connecting to a peer.
    pub fn should_connect(&self, did: Did) -> (r: bool)
        ensures
            r == self.good_spec(did),
    {
        self.behaviour_good(did)
    }

    /// Connect to a peer only if the judgement hook allows it. The hook is
    /// advisory: a peer in good standing has the attempt counted and the
    /// connection tried exactly as `connect` states.
    pub fn judge_connect(&mut self, did: Did) -> (r: Result<u128, Error>)
        requires
            old(self).wf(),
            old(self).id_horizon < u128::MAX,
        ensures
            final(self).wf(),
            !old(self).good_spec(did) ==> r == Err::<u128, Error>(Error::NodeBehaviourBad(did))
                && *final(self) == *old(self),
            old(self).good_spec(did) ==> ({
                &&& measure_bumped(
                    old(self).measure,
                    final(self).measure,
                    did,
                    MeasureCounter::Connect,
                )
                &&& (match reg_lookup(old(self).reg(), did) {
                    Some(c) => c.state is Connected ==> (match r {
                        Ok(cid) => cid == c.id && final(self).reg() == old(self).reg() && final(self).pend() == old(self).pend() && final(self).ret() == old(self).ret()
                            && final(self).evs() == old(self).evs(),
                        Err(_) => false,
                    }),
                    None => true,
                })
                &&& (!(reg_lookup(old(self).reg(), did) matches Some(c) && c.state is Connected)
                    ==> final(self).pend().len() == old(self).pend().len() + 1 && ({
                    let c = final(self).pend().last();
                    c.peer == did && c.state is New
                }) && r == Err::<u128, Error>(Error::MissDidInTable(did)) && final(self).reg()
                    == old(self).reg())
            }),
    {
        if !self.should_connect(did) {
            return Err(Error::NodeBehaviourBad(did));
        }
        self.record_connect(did);
        self.connect(did)
    }

    /// Connect through a next hop only if the judgement hook allows it:
    /// a peer in good standing gets the connection recorded and attempted
    /// exactly as `connect_via` states.
    pub fn judge_connect_via(&mut self, did: Did, next_hop: Did) -> (r: Result<u128, Error>)
        requires
            old(self).wf(),
            old(self).id_horizon < u128::MAX,
        ensures
            final(self).wf(),
            !old(self).good_spec(did) ==> r == Err::<u128, Error>(Error::NodeBehaviourBad(did))
                && *final(self) == *old(self),
            old(self).good_spec(did) ==> ({
                &&& measure_bumped(
                    old(self).measure,
                    final(self).measure,
                    did,
                    MeasureCounter::Connect,
                )
                &&& (match reg_lookup(old(self).reg(), did) {
                    Some(c) => c.state is Connected ==> (match r {
                        Ok(cid) => cid == c.id && final(self).reg() == old(self).reg() && final(self).pend() == old(self).pend() && final(self).ret() == old(self).ret()
                            && final(self).evs() == old(self).evs(),
                        Err(_) => false,
                    }),
                    None => true,
                })
                &&& (!(reg_lookup(old(self).reg(), did) matches Some(c) && c.state is Connected)
                    ==> final(self).pend().len() == old(self).pend().len() + 1 && ({
                    let c = final(self).pend().last();
                    c.peer == did && c.state is New
                }) && (match r {
                    Ok(cid) => cid == final(self).pend().last().id,
                    Err(e) => e == Error::MissDidInTable(next_hop),
                }) && (match reg_lookup(old(self).reg(), next_hop) {
                    Some(c2) => c2.state is Connected ==> r is Ok,
                    None => r == Err::<u128, Error>(Error::MissDidInTable(next_hop)),
                }))
            }),
    {
        if !self.should_connect(did) {
            return Err(Error::NodeBehaviourBad(did));
        }
        self.record_connect(did);
        self.connect_via(did, next_hop)
    }

    /// Disconnect from a peer, recording the disconnection first.
    pub fn judge_disconnect(&mut self, did: Did) -> (r: Result<(), Error>)
        requires
            old(self).wf(),
        ensures
            final(self).wf(),
            measure_bumped(
                old(self).measure,
                final(self).measure,
                did,
                MeasureCounter::Disconnected,
            ),
            (match reg_lookup(old(self).reg(), did) {
                None => r == Err::<(), Error>(Error::ConnectionNotFound),
                Some(c) => r is Ok && final(self).reg() == old(self).reg().remove(
                    reg_index_of(old(self).reg(), did),
                ) && final(self).ret() == old(self).ret().push(closed_of(c)) && final(self).evs()
                    == old(self).evs().push(Event::ConnectClosed(did, c.id)),
            }),
    {
        self.record_disconnected(did);
        self.disconnect(did)
    }
}

/// One counter of a peer's record, bumped; the others untouched.
fn bump_counter(c: BehaviourCounters, counter: MeasureCounter) -> (r: BehaviourCounters)
    ensures
        r == bumped_counters(c, counter),
{
    match counter {
        MeasureCounter::Sent => BehaviourCounters {
            sent: if c.sent < u64::MAX { c.sent + 1 } else { c.sent },
            ..c
        },
        MeasureCounter::FailedToSend => BehaviourCounters {
            failed_to_send: if c.failed_to_send < u64::MAX { c.failed_to_send + 1 } else { c.failed_to_send },
            ..c
        },
        MeasureCounter::Connect => BehaviourCounters {
            connect: if c.connect < u64::MAX { c.connect + 1 } else { c.connect },
            ..c
        },
        MeasureCounter::Disconnected => BehaviourCounters {
            disconnected: if c.disconnected < u64::MAX { c.disconnected + 1 } else { c.disconnected },
            ..c
        },
    }
}

/// The builder's segments, joined back with semicolons.
pub open spec fn joined_uris(segs: Seq<Seq<u8>>) -> Seq<u8>
    decreases segs.len(),
{
    if segs.len() == 0 {
        Seq::empty()
    } else if segs.len() == 1 {
        segs[0]
    } else {
        segs[0] + seq![59u8] + joined_uris(segs.drop_first())
    }
}

/// The byte views of a list of ICE servers.
pub open spec fn uri_views(v: Seq<IceServer>) -> Seq<Seq<u8>> {
    v.map_values(|s: IceServer| s.uri@)
}

/// No semicolon inside a segment.
pub open spec fn no_semi(s: Seq<u8>) -> bool {
    forall|i: int| 0 <= i < s.len() ==> #[trigger] s[i] != 59
}

/// Appending a byte to the last segment appends it to the join.
proof fn lemma_joined_snoc_byte(segs: Seq<Seq<u8>>, b: u8)
    requires
        segs.len() >= 1,
    ensures
        joined_uris(segs.update(segs.len() - 1, segs.last().push(b))) == joined_uris(segs).push(b),
    decreases segs.len(),
{
    let segs2 = segs.update(segs.len() - 1, segs.last().push(b));
    if segs.len() == 1 {
        assert(joined_uris(segs2) == segs.last().push(b));
    } else {
        lemma_joined_snoc_byte(segs.drop_first(), b);
        assert(segs2.drop_first() =~= segs.drop_first().update(
            segs.drop_first().len() - 1,
            segs.drop_first().last().push(b),
        ));
        assert(segs2[0] == segs[0]);
        assert(joined_uris(segs2) == segs[0] + seq![59u8] + joined_uris(segs2.drop_first()));
        assert(segs[0] + seq![59u8] + joined_uris(segs.drop_first()).push(b) =~= (segs[0]
            + seq![59u8] + joined_uris(segs.drop_first())).push(b));
    }
}

/// Opening a new empty segment appends a semicolon to the join.
proof fn lemma_joined_new_seg(segs: Seq<Seq<u8>>)
    requires
        segs.len() >= 1,
    ensures
        joined_uris(segs.push(Seq::empty())) == joined_uris(segs).push(59u8),
    decreases segs.len(),
{
    let segs2 = segs.push(Seq::<u8>::empty());
    if segs.len() == 1 {
        assert(segs2.drop_first() =~= seq![Seq::<u8>::empty()]);
        assert(joined_uris(seq![Seq::<u8>::empty()]) == Seq::<u8>::empty());
        assert(joined_uris(segs2) == segs2[0] + seq![59u8] + Seq::<u8>::empty());
        assert(segs2[0] == segs[0]);
        assert(segs[0] + seq![59u8] + Seq::<u8>::empty() =~= segs[0].push(59u8));
        assert(joined_uris(segs) == segs[0]);
    } else {
        lemma_joined_new_seg(segs.drop_first());
        assert(segs2.drop_first() =~= segs.drop_first().push(Seq::<u8>::empty()));
        assert(segs2[0] == segs[0]);
        assert(joined_uris(segs2) == segs[0] + seq![59u8] + joined_uris(segs2.drop_first()));
        assert(segs[0] + seq![59u8] + joined_uris(segs.drop_first()).push(59u8) =~= (segs[0]
            + seq![59u8] + joined_uris(segs.drop_first())).push(59u8));
    }
}

/// Configures and produces a swarm. The message-callback hook of the
/// wider system is not configured here: a boxed dynamic handler lives
/// with the embedding application, which reads messages from
/// `Swarm::poll_message` instead.
pub struct SwarmBuilder {
    /// The node secret, when identity comes from a key.
    pub key: Option<SecretKey>,
    /// The ICE servers parsed from the configuration string.
    pub ice_servers: Vec<IceServer>,
    /// Advertised candidate host override.
    pub external_address: Option<String>,
    /// The node's DID, fixed by `key` or `session_manager`.
    pub dht_did: Option<Did>,
    /// Successor-list width handed to the routing layer.
    pub dht_succ_max: u8,
    /// A ready-made session, when identity comes from one.
    pub session_manager: Option<SessionManager>,
    /// Validity window for signed payloads.
    pub session_ttl: Option<u64>,
    /// Local port for forwarded hidden services.
    pub hidden_service_port: Option<usize>,
}

impl SwarmBuilder {
    /// Start from a semicolon-separated list of ICE server URIs: the
    /// segments, with their separators, spell the input back exactly.
    pub fn new(ice_servers: &str) -> (r: SwarmBuilder)
        ensures
            joined_uris(uri_views(r.ice_servers@)) == ice_servers.spec_bytes(),
            r.ice_servers@.len() >= 1,
            forall|i: int|
                0 <= i < r.ice_servers@.len() ==> no_semi((#[trigger] r.ice_servers@[i]).uri@),
            r.key is None,
            r.external_address is None,
            r.dht_did is None,
            r.dht_succ_max == 3,
            r.session_manager is None,
            r.session_ttl is None,
            r.hidden_service_port is None,
    {
        let bytes = ice_servers.as_bytes_vec();
        let mut servers: Vec<IceServer> = Vec::new();
        let mut cur: Vec<u8> = Vec::new();
        let n = bytes.len();
        let mut i: usize = 0;
        while i < n
            invariant
                n == bytes@.len(),
                i <= n,
                joined_uris(uri_views(servers@).push(cur@)) == bytes@.take(i as int),
                forall|k: int| 0 <= k < servers@.len() ==> no_semi((#[trigger] servers@[k]).uri@),
                no_semi(cur@),
            decreases n - i,
        {
            let b = bytes[i];
            let ghost segs0 = uri_views(servers@).push(cur@);
            if b == 59 {
                servers.push(IceServer { uri: cur });
                cur = Vec::new();
                proof {
                    lemma_joined_new_seg(segs0);
                    assert(uri_views(servers@).push(cur@) =~= segs0.push(Seq::<u8>::empty()));
                    assert(bytes@.take(i + 1) =~= bytes@.take(i as int).push(bytes@[i as int]));
                }
            } else {
                cur.push(b);
                proof {
                    lemma_joined_snoc_byte(segs0, b);
                    assert(uri_views(servers@).push(cur@) =~= segs0.update(
                        segs0.len() - 1,
                        segs0.last().push(b),
                    ));
                    assert(bytes@.take(i + 1) =~= bytes@.take(i as int).push(bytes@[i as int]));
                }
            }
            i = i + 1;
        }
        let ghost segs0 = uri_views(servers@).push(cur@);
        servers.push(IceServer { uri: cur });
        proof {
            assert(uri_views(servers@) =~= segs0);
            assert(bytes@.take(n as int) =~= bytes@);
        }
        SwarmBuilder {
            key: None,
            ice_servers: servers,
            external_address: None,
            dht_did: None,
            dht_succ_max: 3,
            session_manager: None,
            session_ttl: None,
            hidden_service_port: None,
        }
    }

    /// Set the successor-list width.
    pub fn dht_succ_max(self, succ_max: u8) -> (r: SwarmBuilder)
        ensures
            r == (SwarmBuilder { dht_succ_max: succ_max, ..self }),
    {
        SwarmBuilder { dht_succ_max: succ_max, ..self }
    }

    /// Set the advertised candidate host override.
    pub fn external_address(self, external_address: Option<String>) -> (r: SwarmBuilder)
        ensures
            r == (SwarmBuilder { external_address, ..self }),
    {
        SwarmBuilder { external_address, ..self }
    }

    /// Take identity from a node secret: the DID derives from it.
    pub fn key(self, key: SecretKey) -> (r: SwarmBuilder)
        ensures
            r.key == Some(key),
            (r.dht_did matches Some(d) && d.bytes() == crate::session::addr_bytes(key.key)),
            r.ice_servers == self.ice_servers,
            r.external_address == self.external_address,
            r.dht_succ_max == self.dht_succ_max,
            r.session_manager == self.session_manager,
            r.session_ttl == self.session_ttl,
            r.hidden_service_port == self.hidden_service_port,
    {
        let did = key.address();
        SwarmBuilder { key: Some(key), dht_did: Some(did), ..self }
    }

    /// Take identity from a ready-made session and an explicit DID.
    pub fn session_manager(self, did: Did, session_manager: SessionManager) -> (r: SwarmBuilder)
        ensures
            r == (SwarmBuilder {
                session_manager: Some(session_manager),
                dht_did: Some(did),
                ..self
            }),
    {
        SwarmBuilder { session_manager: Some(session_manager), dht_did: Some(did), ..self }
    }

    /// Set the validity window for signed payloads.
    pub fn session_ttl(self, ttl: u64) -> (r: SwarmBuilder)
        ensures
            r == (SwarmBuilder { session_ttl: Some(ttl), ..self }),
    {
        SwarmBuilder { session_ttl: Some(ttl), ..self }
    }

    /// Produce the swarm: a session or a key must have fixed the identity.
    pub fn build(self) -> (r: Result<Swarm, Error>)
        ensures
            (self.dht_did is Some && (self.session_manager is Some || self.key is Some) <==> r
                is Ok),
            (match r {
                Ok(sw) => {
                    &&& sw.wf()
                    &&& sw.reg().len() == 0
                    &&& sw.pend().len() == 0
                    &&& sw.ret().len() == 0
                    &&& sw.evs().len() == 0
                    &&& Some(sw.node_did) == self.dht_did
                    &&& (match self.session_manager {
                        Some(sm) => sw.session_manager == sm,
                        None => (match self.key {
                            Some(k) => sw.session_manager.token == k.key
                                && sw.session_manager.ttl_ms == (match self.session_ttl {
                                Some(t) => t,
                                None => crate::session::DEFAULT_SESSION_TTL_MS,
                            }),
                            None => false,
                        }),
                    })
                    &&& sw.ice_servers == self.ice_servers
                    &&& sw.external_address == self.external_address
                    &&& sw.dht_succ_max == self.dht_succ_max
                    &&& sw.hidden_service_port == self.hidden_service_port
                    &&& sw.measure is None
                },
                Err(e) => e == Error::SwarmBuildFailed,
            }),
    {
        let session_manager = match self.session_manager {
            Some(sm) => sm,
            None => {
                match &self.key {
                    Some(k) => {
                        match SessionManager::new_with_seckey(k, self.session_ttl) {
                            Ok(sm) => sm,
                            Err(_) => {
                                return Err(Error::SwarmBuildFailed);
                            },
                        }
                    },
                    None => {
                        return Err(Error::SwarmBuildFailed);
                    },
                }
            },
        };
        let node_did = match self.dht_did {
            Some(d) => d,
            None => {
                return Err(Error::SwarmBuildFailed);
            },
        };
        Ok(
            Swarm {
                node_did,
                session_manager,
                ice_servers: self.ice_servers,
                external_address: self.external_address,
                dht_succ_max: self.dht_succ_max,
                hidden_service_port: self.hidden_service_port,
                measure: None,
                registry: Vec::new(),
                pending: Vec::new(),
                retired: Vec::new(),
                events: Vec::new(),
                id_horizon: 0,
            },
        )
    }
}


/// Handshake completeness. Both final legs of a handshake leave a
/// `Connected` connection on the pending list and queue a
/// `RegisterTransport` event naming its id (see `answer_offer` and
/// `accept_answer`). This lemma states what `poll_message`'s `dispatched`
/// contract then forces: consuming that event moves exactly that pending
/// connection into the registry slot of the peer and reports the join —
/// so once each side drains its event, the two registries resolve to each
/// other, with both connections still in the state they reached.
pub proof fn lemma_handshake_completes(
    pre: Swarm,
    post: Swarm,
    did: Did,
    id: u128,
    r: Option<MessagePayload>,
)
    requires
        pre.wf(),
        pend_index_of(pre.pend(), id) >= 0,
        dispatched(pre, post, Event::RegisterTransport(did, id), r),
    ensures
        reg_lookup(post.reg(), did) == Some(pre.pend()[pend_index_of(pre.pend(), id)]),
        (match r {
            Some(p) => p.body == Message::JoinDHT(JoinDHT { id: did }) && p.signed_ok(),
            None => false,
        }),
{
    pend_index_of_props(pre.pend(), id);
    lemma_register_lookup(pre.reg(), did, pre.pend()[pend_index_of(pre.pend(), id)]);
}

} // verus!
