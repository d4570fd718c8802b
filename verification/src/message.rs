//! The message bodies the core must understand.

use vstd::prelude::*;
use crate::did::Did;
use crate::wire::{json_safe, json_string, did_json};
use vstd::string::*;

verus! {

/// An SDP offer on its way to a peer.
#[derive(Clone, Debug, PartialEq)]
pub struct ConnectNodeSend {
    /// The serialized session description; opaque to the core.
    pub sdp: Vec<u8>,
}

/// An SDP answer on its way back to the offerer.
#[derive(Clone, Debug, PartialEq)]
pub struct ConnectNodeReport {
    /// The serialized session description; opaque to the core.
    pub sdp: Vec<u8>,
}

/// A synthetic note that a peer joined: handed upward so the routing layer
/// learns about the new neighbour.
#[derive(Clone, Copy, Debug, PartialEq, Eq)]
pub struct JoinDHT {
    /// The peer that joined.
    pub id: Did,
}

/// A synthetic note that a peer left.
#[derive(Clone, Copy, Debug, PartialEq, Eq)]
pub struct LeaveDHT {
    /// The peer that left.
    pub id: Did,
}

/// Every message body the core carries.
#[derive(Clone, Debug, PartialEq)]
pub enum Message {
    /// An offer.
    ConnectNodeSend(ConnectNodeSend),
    /// An answer.
    ConnectNodeReport(ConnectNodeReport),
    /// Swarm-internal: a peer joined.
    JoinDHT(JoinDHT),
    /// Swarm-internal: a peer left.
    LeaveDHT(LeaveDHT),
}

impl Message {
    /// The strings carried inside fit the wire's quoted-string alphabet.
    pub open spec fn wf(self) -> bool {
        match self {
            Message::ConnectNodeSend(m) => json_safe(m.sdp@),
            Message::ConnectNodeReport(m) => json_safe(m.sdp@),
            Message::JoinDHT(_) => true,
            Message::LeaveDHT(_) => true,
        }
    }
}

/// The tag naming a body's variant on the wire.
pub open spec fn message_tag(m: Message) -> Seq<u8> {
    match m {
        Message::ConnectNodeSend(_) => "ConnectNodeSend".spec_bytes(),
        Message::ConnectNodeReport(_) => "ConnectNodeReport".spec_bytes(),
        Message::JoinDHT(_) => "JoinDHT".spec_bytes(),
        Message::LeaveDHT(_) => "LeaveDHT".spec_bytes(),
    }
}

/// What stands inside a body's braces after its tag.
pub open spec fn message_inner(m: Message) -> Seq<u8> {
    match m {
        Message::ConnectNodeSend(cm) => "{\"sdp\":".spec_bytes() + (json_string(cm.sdp@)
            + "}".spec_bytes()),
        Message::ConnectNodeReport(cm) => "{\"sdp\":".spec_bytes() + (json_string(cm.sdp@)
            + "}".spec_bytes()),
        Message::JoinDHT(jm) => "{\"id\":".spec_bytes() + (did_json(jm.id) + "}".spec_bytes()),
        Message::LeaveDHT(lm) => "{\"id\":".spec_bytes() + (did_json(lm.id) + "}".spec_bytes()),
    }
}

/// A body on the wire: an object with one field, named by the variant.
pub open spec fn enc_message(m: Message) -> Seq<u8> {
    "{".spec_bytes() + (json_string(message_tag(m)) + (":".spec_bytes() + (message_inner(m)
        + "}".spec_bytes())))
}

} // verus!
