//! Errors surfaced at the boundary of the core.

use vstd::prelude::*;
use crate::did::Did;

verus! {

/// What went wrong inside the transport layer of a connection.
#[derive(Clone, Copy, Debug, PartialEq, Eq, Structural)]
pub enum TransportError {
    /// The data channel is not open, so nothing can be written to it.
    ChannelNotOpen,
    /// The connection handed in as a default entry is not connected.
    NotConnected,
}

/// Every error the core reports to a caller.
#[derive(Clone, Debug, PartialEq)]
pub enum Error {
    /// A live connection to that peer already exists.
    AlreadyConnected,
    /// A signed payload failed verification and was dropped.
    VerifySignatureFailed,
    /// A payload carried a body of the wrong kind for this operation.
    InvalidMessage,
    /// No connection for that peer was found where one was required.
    ConnectionNotFound,
    /// A transport operation failed.
    Transport(TransportError),
    /// The registry has no connection for the DID a payload must go to.
    MissDidInTable(Did),
    /// A REPORT relay could not find the current hop in the path and was
    /// given no explicit next hop.
    CannotInferNextHop,
    /// The envelope's next hop does not name the current handler.
    InvalidNextHop,
    /// The envelope's path holds two adjacent equal DIDs.
    InvalidRelayPath,
    /// A REPORT envelope's destination is not the head of its path.
    InvalidRelayDestination,
    /// Only a SEND envelope can be turned into a report.
    ReportNeedSend,
    /// Only a SEND envelope can have its destination changed.
    ResetDestinationNeedSend,
    /// Bytes did not hold the canonical encoding of a signed payload.
    DecodeError,
    /// No pending connection carries the given connection id.
    SwarmPendingTransNotFound,
    /// A register event arrived for a DID that has no connection.
    SwarmMissTransport(Did),
    /// The judgement hook advised against connecting to this peer.
    NodeBehaviourBad(Did),
    /// The builder was not given a session manager or a key.
    SwarmBuildFailed,
}

} // verus!
