//! One direct peer-to-peer data channel, modelled synchronously: the
//! negotiation exchanges opaque SDP blobs, the channel is a growing log of
//! sent frames, and closing is idempotent.

use vstd::prelude::*;
use crate::did::Did;
use crate::errors::{Error, TransportError};
use crate::wire::{hex_chars, json_safe, push_lit, append_bytes};
use vstd::string::*;

verus! {

broadcast use vstd::string::group_string_axioms;

/// Where the ICE negotiation of a connection stands.
#[derive(Clone, Copy, Debug, PartialEq, Eq, Structural)]
pub enum ConnectionState {
    /// Just created; nothing negotiated yet.
    New,
    /// Candidates are being probed.
    Checking,
    /// The data channel is open.
    Connected,
    /// The channel dropped; it may come back.
    Disconnected,
    /// Negotiation gave up.
    Failed,
    /// Closed for good.
    Closed,
}

/// What a transport reports to the swarm that owns it.
#[derive(Clone, Debug, PartialEq)]
pub enum Event {
    /// A frame arrived on some data channel.
    ReceiveMessage(Vec<u8>),
    /// The connection with this id to this peer became ready.
    RegisterTransport(Did, u128),
    /// The connection with this id to this peer went away.
    ConnectClosed(Did, u128),
}

/// The offer blob this transport produces for a peer.
pub open spec fn sdp_offer(peer: Did) -> Seq<u8> {
    "offer:".spec_bytes() + hex_chars(peer.bytes())
}

/// The answer blob this transport produces for a peer.
pub open spec fn sdp_answer(peer: Did) -> Seq<u8> {
    "answer:".spec_bytes() + hex_chars(peer.bytes())
}

/// Both SDP blobs fit the wire's quoted-string alphabet.
pub proof fn lemma_sdp_safe(peer: Did)
    ensures
        json_safe(sdp_offer(peer)),
        json_safe(sdp_answer(peer)),
{
    reveal_strlit("offer:");
    reveal_strlit("answer:");
    assert("offer:".is_ascii());
    assert("answer:".is_ascii());
    assert forall|i: int| 0 <= i < hex_chars(peer.bytes()).len() implies 32 <= #[trigger] hex_chars(
        peer.bytes(),
    )[i] <= 126 && hex_chars(peer.bytes())[i] != 34 && hex_chars(peer.bytes())[i] != 92 by {
        let b = peer.bytes()[i / 2];
        assert(0 <= b / 16 < 16 && 0 <= b % 16 < 16);
    }
    assert forall|i: int| 0 <= i < sdp_offer(peer).len() implies 32 <= #[trigger] sdp_offer(
        peer,
    )[i] <= 126 && sdp_offer(peer)[i] != 34 && sdp_offer(peer)[i] != 92 by {
        if i >= "offer:".spec_bytes().len() {
            assert(sdp_offer(peer)[i] == hex_chars(peer.bytes())[i - "offer:".spec_bytes().len()]);
        }
    }
    assert forall|i: int| 0 <= i < sdp_answer(peer).len() implies 32 <= #[trigger] sdp_answer(
        peer,
    )[i] <= 126 && sdp_answer(peer)[i] != 34 && sdp_answer(peer)[i] != 92 by {
        if i >= "answer:".spec_bytes().len() {
            assert(sdp_answer(peer)[i] == hex_chars(peer.bytes())[i - "answer:".spec_bytes().len()]);
        }
    }
}

/// One direct data channel to a peer.
#[derive(Clone, Debug)]
pub struct Connection {
    /// Stable id correlating asynchronous events with registry slots.
    pub id: u128,
    /// The peer at the other end.
    pub peer: Did,
    /// Where negotiation stands.
    pub state: ConnectionState,
    /// How many times `close` has moved this connection to `Closed`.
    pub close_count: u32,
    /// Every frame written on the data channel, in order.
    pub sent: Vec<Vec<u8>>,
    /// The remote description stored by the negotiation, if any.
    pub remote_sdp: Option<Vec<u8>>,
}

impl Connection {
    /// Closing happens at most once: the count records it and agrees with
    /// the state.
    pub open spec fn wf(self) -> bool {
        self.close_count == (if self.state is Closed {
            1int
        } else {
            0int
        })
    }

    /// A fresh, unnegotiated connection.
    pub fn new_connection(peer: Did, id: u128) -> (c: Connection)
        ensures
            c.id == id,
            c.peer == peer,
            c.state is New,
            c.close_count == 0,
            c.sent@.len() == 0,
            c.remote_sdp is None,
            c.wf(),
    {
        Connection {
            id,
            peer,
            state: ConnectionState::New,
            close_count: 0,
            sent: Vec::new(),
            remote_sdp: None,
        }
    }

    /// The ICE state of this connection.
    pub fn ice_connection_state(&self) -> (r: ConnectionState)
        ensures
            r == self.state,
    {
        self.state
    }

    /// Whether the data channel is open.
    pub fn is_connected(&self) -> (r: bool)
        ensures
            r == (self.state is Connected),
    {
        self.state == ConnectionState::Connected
    }

    /// Produce the local offer; gathering continues in the background, so
    /// the state does not move yet.
    pub fn webrtc_create_offer(&self) -> (r: Vec<u8>)
        ensures
            r@ == sdp_offer(self.peer),
    {
        render_sdp(true, &self.peer)
    }

    /// Accept a remote offer and produce the local answer; the synchronous
    /// channel is open from here on.
    pub fn webrtc_answer_offer(&mut self, remote: &Vec<u8>) -> (r: Vec<u8>)
        requires
            old(self).state is New,
        ensures
            r@ == sdp_answer(old(self).peer),
            final(self).state is Connected,
            (final(self).remote_sdp matches Some(s) && s@ == remote@),
            final(self).id == old(self).id,
            final(self).peer == old(self).peer,
            final(self).close_count == old(self).close_count,
            final(self).sent == old(self).sent,
            old(self).wf() ==> final(self).wf(),
    {
        let mut copy: Vec<u8> = Vec::new();
        append_bytes(&mut copy, remote);
        proof {
            assert(copy@ =~= remote@);
        }
        self.remote_sdp = Some(copy);
        self.state = ConnectionState::Connected;
        render_sdp(false, &self.peer)
    }

    /// Finalize negotiation as the offerer; the channel is open.
    pub fn webrtc_accept_answer(&mut self, answer: &Vec<u8>)
        requires
            old(self).state is New,
        ensures
            final(self).state is Connected,
            (final(self).remote_sdp matches Some(s) && s@ == answer@),
            final(self).id == old(self).id,
            final(self).peer == old(self).peer,
            final(self).close_count == old(self).close_count,
            final(self).sent == old(self).sent,
            old(self).wf() ==> final(self).wf(),
    {
        let mut copy: Vec<u8> = Vec::new();
        append_bytes(&mut copy, answer);
        proof {
            assert(copy@ =~= answer@);
        }
        self.remote_sdp = Some(copy);
        self.state = ConnectionState::Connected;
    }

    /// Write one frame on the data channel; fails unless the channel is
    /// open.
    pub fn send_message(&mut self, data: &Vec<u8>) -> (r: Result<(), Error>)
        ensures
            (old(self).state is Connected ==> r is Ok && final(self).sent@.len() == old(self).sent@.len() + 1 && final(self).sent@.last()@ == data@ && (forall|i: int|
                0 <= i < old(self).sent@.len() ==> final(self).sent@[i] == old(self).sent@[i])
                && final(self).id == old(self).id && final(self).peer == old(self).peer && final(self).state == old(self).state && final(self).close_count == old(self).close_count && final(self).remote_sdp == old(self).remote_sdp),
            (!(old(self).state is Connected) ==> r == Err::<(), Error>(
                Error::Transport(TransportError::ChannelNotOpen),
            ) && *final(self) == *old(self)),
            old(self).wf() ==> final(self).wf(),
    {
        if self.state != ConnectionState::Connected {
            return Err(Error::Transport(TransportError::ChannelNotOpen));
        }
        let mut copy: Vec<u8> = Vec::new();
        append_bytes(&mut copy, data);
        self.sent.push(copy);
        Ok(())
    }

    /// Move to `Closed`; once there, further calls change nothing.
    pub fn close(&mut self)
        requires
            old(self).close_count < u32::MAX,
        ensures
            final(self).state is Closed,
            final(self).close_count == old(self).close_count + (if old(self).state is Closed {
                0int
            } else {
                1int
            }),
            final(self).id == old(self).id,
            final(self).peer == old(self).peer,
            final(self).sent == old(self).sent,
            final(self).remote_sdp == old(self).remote_sdp,
            old(self).wf() ==> final(self).wf() && final(self).close_count == 1,
    {
        if self.state != ConnectionState::Closed {
            self.state = ConnectionState::Closed;
            self.close_count = self.close_count + 1;
        }
    }
}

/// Render one of the two SDP blobs for a peer.
fn render_sdp(offer: bool, peer: &Did) -> (r: Vec<u8>)
    ensures
        offer ==> r@ == sdp_offer(*peer),
        !offer ==> r@ == sdp_answer(*peer),
{
    let mut out: Vec<u8> = Vec::new();
    if offer {
        push_lit(&mut out, "offer:");
    } else {
        push_lit(&mut out, "answer:");
    }
    let ghost prefix = out@;
    let mut j: usize = 0;
    while j < 20
        invariant
            j <= 20,
            out@ == prefix + hex_chars(peer.bytes()).take(2 * j),
        decreases 20 - j,
    {
        let b = peer.0[j];
        let hi = b / 16;
        let lo = b % 16;
        out.push(if hi < 10 { 48 + hi } else { 87 + hi });
        out.push(if lo < 10 { 48 + lo } else { 87 + lo });
        proof {
            assert((2 * j as int) % 2 == 0 && (2 * j as int) / 2 == j as int && (2 * j as int + 1)
                % 2 == 1 && (2 * j as int + 1) / 2 == j as int);
            assert(out@ =~= prefix + hex_chars(peer.bytes()).take(2 * (j + 1)));
        }
        j = j + 1;
    }
    proof {
        assert(hex_chars(peer.bytes()).take(40) =~= hex_chars(peer.bytes()));
    }
    out
}

} // verus!
