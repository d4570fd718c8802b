//! The signed payload: a message body bound to its routing envelope,
//! session token, timestamps and tag, carried on the wire as one canonical
//! JSON object. The encoder and decoder are exact inverses on well-formed
//! payloads, and the decoder accepts nothing but the canonical form.

use vstd::prelude::*;
use vstd::string::*;
use crate::did::Did;
use crate::errors::Error;
use crate::message::{Message, ConnectNodeSend, ConnectNodeReport, JoinDHT, LeaveDHT};
use crate::message::{enc_message, message_tag, message_inner};
use crate::relay::{MessageRelay, RelayMethod};
use crate::session::{sig_tag, compute_tag, SessionManager};
use crate::utils::get_epoch_ms;
use crate::wire::{
    dec_u64, did_json, json_safe, json_string, lit_at, parse_did, parse_json_string, parse_u64,
    push_did, push_json_string, push_lit, push_u64, take_lit, lemma_split_at, seq_assoc,
    seq_empty_left, lemma_subrange_stitch, bytes_eq_lit, is_digit,
};

verus! {

broadcast use vstd::string::group_string_axioms;

/// An authenticated message in flight.
#[derive(Clone, Debug, PartialEq)]
pub struct MessagePayload {
    /// The typed body.
    pub body: Message,
    /// The routing envelope.
    pub envelope: MessageRelay,
    /// The session token the tag is checked against.
    pub session_pubkey: u64,
    /// When the payload was built, in milliseconds since the epoch.
    pub timestamp_ms: u64,
    /// How long past its timestamp the payload stays valid.
    pub ttl_ms: u64,
    /// The origin's tag over body, envelope, timestamp and ttl.
    pub origin_signature: u64,
    /// An optional countersignature added at the destination.
    pub destination_signature: Option<u64>,
}

/// A method name on the wire.
pub open spec fn enc_method(m: RelayMethod) -> Seq<u8> {
    match m {
        RelayMethod::SEND => json_string("SEND".spec_bytes()),
        RelayMethod::REPORT => json_string("REPORT".spec_bytes()),
    }
}

/// The tail of an encoded path: one `,`-prefixed DID per remaining item,
/// then the closing bracket.
pub open spec fn enc_path_tail(items: Seq<Did>) -> Seq<u8>
    decreases items.len(),
{
    if items.len() == 0 {
        "]".spec_bytes()
    } else {
        ",".spec_bytes() + (did_json(items[0]) + enc_path_tail(items.drop_first()))
    }
}

/// A path on the wire: a JSON array of DIDs.
pub open spec fn enc_path(path: Seq<Did>) -> Seq<u8> {
    if path.len() == 0 {
        "[]".spec_bytes()
    } else {
        "[".spec_bytes() + (did_json(path[0]) + enc_path_tail(path.skip(1)))
    }
}

/// An optional DID on the wire: `null` or the DID itself.
pub open spec fn enc_opt_did(o: Option<Did>) -> Seq<u8> {
    match o {
        None => "null".spec_bytes(),
        Some(d) => did_json(d),
    }
}

/// An optional signature on the wire: `null` or the number itself.
pub open spec fn enc_opt_u64(o: Option<u64>) -> Seq<u8> {
    match o {
        None => "null".spec_bytes(),
        Some(n) => dec_u64(n as int),
    }
}

/// The destination field and the closing brace of an envelope.
pub open spec fn enc_env_dest(dest: Did) -> Seq<u8> {
    ",\"destination\":".spec_bytes() + (did_json(dest) + "}".spec_bytes())
}

/// The next-hop field and everything after it.
pub open spec fn enc_env_hop(nh: Option<Did>, dest: Did) -> Seq<u8> {
    ",\"next_hop\":".spec_bytes() + (enc_opt_did(nh) + enc_env_dest(dest))
}

/// The cursor field and everything after it.
pub open spec fn enc_env_cursor(c: usize, nh: Option<Did>, dest: Did) -> Seq<u8> {
    ",\"path_end_cursor\":".spec_bytes() + (dec_u64(c as int) + enc_env_hop(nh, dest))
}

/// An envelope on the wire.
pub open spec fn enc_envelope(e: MessageRelay) -> Seq<u8> {
    "{\"method\":".spec_bytes() + (enc_method(e.method) + (",\"path\":".spec_bytes() + (enc_path(
        e.path@,
    ) + enc_env_cursor(e.path_end_cursor, e.next_hop, e.destination))))
}

/// The destination-signature field and the closing brace of a payload.
pub open spec fn enc_pay_dsig(ds: Option<u64>) -> Seq<u8> {
    ",\"destination_signature\":".spec_bytes() + (enc_opt_u64(ds) + "}".spec_bytes())
}

/// The origin-signature field and everything after it.
pub open spec fn enc_pay_osig(sig: u64, ds: Option<u64>) -> Seq<u8> {
    ",\"origin_signature\":".spec_bytes() + (dec_u64(sig as int) + enc_pay_dsig(ds))
}

/// The ttl field and everything after it.
pub open spec fn enc_pay_ttl(ttl: u64, sig: u64, ds: Option<u64>) -> Seq<u8> {
    ",\"ttl_ms\":".spec_bytes() + (dec_u64(ttl as int) + enc_pay_osig(sig, ds))
}

/// The timestamp field and everything after it.
pub open spec fn enc_pay_ts(ts: u64, ttl: u64, sig: u64, ds: Option<u64>) -> Seq<u8> {
    ",\"timestamp_ms\":".spec_bytes() + (dec_u64(ts as int) + enc_pay_ttl(ttl, sig, ds))
}

/// The session-token field and everything after it.
pub open spec fn enc_pay_pk(pk: u64, ts: u64, ttl: u64, sig: u64, ds: Option<u64>) -> Seq<u8> {
    ",\"session_pubkey\":".spec_bytes() + (dec_u64(pk as int) + enc_pay_ts(ts, ttl, sig, ds))
}

/// A whole signed payload on the wire.
pub open spec fn enc_payload(p: MessagePayload) -> Seq<u8> {
    "{\"body\":".spec_bytes() + (enc_message(p.body) + (",\"envelope\":".spec_bytes() + (
    enc_envelope(p.envelope) + enc_pay_pk(
        p.session_pubkey,
        p.timestamp_ms,
        p.ttl_ms,
        p.origin_signature,
        p.destination_signature,
    ))))
}

/// The bytes the origin signature covers: body, envelope, timestamp, ttl.
pub open spec fn signable(p: MessagePayload) -> Seq<u8> {
    enc_message(p.body) + (enc_envelope(p.envelope) + (dec_u64(p.timestamp_ms as int) + dec_u64(
        p.ttl_ms as int,
    )))
}

/// Two bodies that carry the same bytes: equal up to the views of the
/// vectors inside them.
pub open spec fn same_message(a: Message, b: Message) -> bool {
    match (a, b) {
        (Message::ConnectNodeSend(x), Message::ConnectNodeSend(y)) => x.sdp@ == y.sdp@,
        (Message::ConnectNodeReport(x), Message::ConnectNodeReport(y)) => x.sdp@ == y.sdp@,
        (Message::JoinDHT(x), Message::JoinDHT(y)) => x == y,
        (Message::LeaveDHT(x), Message::LeaveDHT(y)) => x == y,
        _ => false,
    }
}

/// Two envelopes that carry the same bytes: equal up to the view of the
/// path vector.
pub open spec fn same_envelope(a: MessageRelay, b: MessageRelay) -> bool {
    &&& a.method == b.method
    &&& a.path@ == b.path@
    &&& a.path_end_cursor == b.path_end_cursor
    &&& a.next_hop == b.next_hop
    &&& a.destination == b.destination
}

/// Two payloads that carry the same bytes: equal in every field, up to the
/// views of the vectors inside them.
pub open spec fn same_payload(a: MessagePayload, b: MessagePayload) -> bool {
    &&& same_message(a.body, b.body)
    &&& same_envelope(a.envelope, b.envelope)
    &&& a.session_pubkey == b.session_pubkey
    &&& a.timestamp_ms == b.timestamp_ms
    &&& a.ttl_ms == b.ttl_ms
    &&& a.origin_signature == b.origin_signature
    &&& a.destination_signature == b.destination_signature
}

impl MessagePayload {
    /// The strings inside the body fit the wire alphabet.
    pub open spec fn wf(self) -> bool {
        self.body.wf()
    }

    /// The origin signature is the tag of the signable bytes under the
    /// advertised session token.
    pub open spec fn signed_ok(self) -> bool {
        self.origin_signature == sig_tag(self.session_pubkey, signable(self))
    }

    /// The bytes covered by the origin signature.
    pub fn signable_bytes(&self) -> (r: Vec<u8>)
        requires
            self.wf(),
        ensures
            r@ == signable(*self),
    {
        let mut out: Vec<u8> = Vec::new();
        push_message(&mut out, &self.body);
        push_envelope(&mut out, &self.envelope);
        push_u64(&mut out, self.timestamp_ms);
        push_u64(&mut out, self.ttl_ms);
        proof {
            assert(out@ =~= signable(*self));
        }
        out
    }

    /// Build a freshly signed SEND payload at a known time, aimed at an
    /// explicit next hop: the envelope starts at the origin with an empty
    /// cursor.
    pub fn new_send_hop_at(
        body: Message,
        session: &SessionManager,
        origin: Did,
        destination: Did,
        next_hop: Option<Did>,
        now_ms: u64,
    ) -> (r: MessagePayload)
        requires
            body.wf(),
        ensures
            r.wf(),
            r.body == body,
            r.envelope.method is SEND,
            r.envelope.path@ == seq![origin],
            r.envelope.path_end_cursor == 0,
            r.envelope.next_hop == next_hop,
            r.envelope.destination == destination,
            r.session_pubkey == session.token,
            r.timestamp_ms == now_ms,
            r.ttl_ms == session.ttl_ms,
            r.destination_signature is None,
            r.signed_ok(),
    {
        let mut path: Vec<Did> = Vec::new();
        path.push(origin);
        let envelope = MessageRelay {
            method: RelayMethod::SEND,
            path,
            path_end_cursor: 0,
            next_hop,
            destination,
        };
        let mut p = MessagePayload {
            body,
            envelope,
            session_pubkey: session.token,
            timestamp_ms: now_ms,
            ttl_ms: session.ttl_ms,
            origin_signature: 0,
            destination_signature: None,
        };
        let bytes = p.signable_bytes();
        let tag = compute_tag(session.token, &bytes);
        p.origin_signature = tag;
        proof {
            assert(p.envelope.path@ =~= seq![origin]);
        }
        p
    }

    /// Build a freshly signed SEND payload at a known time: the envelope
    /// starts at the origin with an empty cursor and no next hop.
    pub fn new_send_at(
        body: Message,
        session: &SessionManager,
        origin: Did,
        destination: Did,
        now_ms: u64,
    ) -> (r: MessagePayload)
        requires
            body.wf(),
        ensures
            r.wf(),
            r.body == body,
            r.envelope.method is SEND,
            r.envelope.path@ == seq![origin],
            r.envelope.path_end_cursor == 0,
            r.envelope.next_hop is None,
            r.envelope.destination == destination,
            r.session_pubkey == session.token,
            r.timestamp_ms == now_ms,
            r.ttl_ms == session.ttl_ms,
            r.destination_signature is None,
            r.signed_ok(),
    {
        Self::new_send_hop_at(body, session, origin, destination, None, now_ms)
    }

    /// Build a freshly signed SEND payload stamped with the clock's time,
    /// aimed at an explicit next hop.
    pub fn new_send_hop(
        body: Message,
        session: &SessionManager,
        origin: Did,
        destination: Did,
        next_hop: Option<Did>,
    ) -> (r: MessagePayload)
        requires
            body.wf(),
        ensures
            r.wf(),
            r.body == body,
            r.envelope.method is SEND,
            r.envelope.path@ == seq![origin],
            r.envelope.path_end_cursor == 0,
            r.envelope.next_hop == next_hop,
            r.envelope.destination == destination,
            r.session_pubkey == session.token,
            r.ttl_ms == session.ttl_ms,
            r.destination_signature is None,
            r.signed_ok(),
    {
        let now = get_epoch_ms();
        let now_ms: u64 = if now > u64::MAX as u128 {
            u64::MAX
        } else {
            now as u64
        };
        Self::new_send_hop_at(body, session, origin, destination, next_hop, now_ms)
    }

    /// Build a freshly signed SEND payload stamped with the clock's time.
    pub fn new_send(body: Message, session: &SessionManager, origin: Did, destination: Did) -> (r:
        MessagePayload)
        requires
            body.wf(),
        ensures
            r.wf(),
            r.body == body,
            r.envelope.method is SEND,
            r.envelope.path@ == seq![origin],
            r.envelope.path_end_cursor == 0,
            r.envelope.next_hop is None,
            r.envelope.destination == destination,
            r.session_pubkey == session.token,
            r.ttl_ms == session.ttl_ms,
            r.destination_signature is None,
            r.signed_ok(),
    {
        let now = get_epoch_ms();
        let now_ms: u64 = if now > u64::MAX as u128 {
            u64::MAX
        } else {
            now as u64
        };
        Self::new_send_at(body, session, origin, destination, now_ms)
    }

    /// Check the payload against a known time: the tag must match the
    /// session token over the signable bytes, and the payload must not
    /// have outlived its validity window.
    pub fn verify_at(&self, now_ms: u128) -> (r: bool)
        requires
            self.wf(),
        ensures
            r == (self.signed_ok() && now_ms <= self.timestamp_ms + self.ttl_ms),
    {
        let bytes = self.signable_bytes();
        let tag = compute_tag(self.session_pubkey, &bytes);
        tag == self.origin_signature && now_ms <= self.timestamp_ms as u128 + self.ttl_ms as u128
    }

    /// Check the payload against the clock. A payload that passes is
    /// certainly correctly signed; staleness depends on the time of the
    /// call.
    pub fn verify(&self) -> (r: bool)
        requires
            self.wf(),
        ensures
            r ==> self.signed_ok(),
    {
        let now = get_epoch_ms();
        self.verify_at(now)
    }

    /// The canonical bytes of this payload. The strings inside must fit
    /// the wire's quoted-string alphabet, or the frame would not read back.
    pub fn encode(&self) -> (r: Vec<u8>)
        requires
            self.wf(),
        ensures
            r@ == enc_payload(*self),
    {
        let ghost t14 = "}".spec_bytes();
        let ghost t13 = enc_opt_u64(self.destination_signature) + t14;
        let ghost t12 = ",\"destination_signature\":".spec_bytes() + t13;
        let ghost t11 = dec_u64(self.origin_signature as int) + t12;
        let ghost t10 = ",\"origin_signature\":".spec_bytes() + t11;
        let ghost t9 = dec_u64(self.ttl_ms as int) + t10;
        let ghost t8 = ",\"ttl_ms\":".spec_bytes() + t9;
        let ghost t7 = dec_u64(self.timestamp_ms as int) + t8;
        let ghost t6 = ",\"timestamp_ms\":".spec_bytes() + t7;
        let ghost t5 = dec_u64(self.session_pubkey as int) + t6;
        let ghost t4 = ",\"session_pubkey\":".spec_bytes() + t5;
        let ghost t3 = enc_envelope(self.envelope) + t4;
        let ghost t2 = ",\"envelope\":".spec_bytes() + t3;
        let ghost t1 = enc_message(self.body) + t2;
        let ghost t0 = "{\"body\":".spec_bytes() + t1;
        let mut out: Vec<u8> = Vec::new();
        let ghost o0 = out@;
        push_lit(&mut out, "{\"body\":");
        let ghost o1 = out@;
        push_message(&mut out, &self.body);
        let ghost o2 = out@;
        push_lit(&mut out, ",\"envelope\":");
        let ghost o3 = out@;
        push_envelope(&mut out, &self.envelope);
        let ghost o4 = out@;
        push_lit(&mut out, ",\"session_pubkey\":");
        let ghost o5 = out@;
        push_u64(&mut out, self.session_pubkey);
        let ghost o6 = out@;
        push_lit(&mut out, ",\"timestamp_ms\":");
        let ghost o7 = out@;
        push_u64(&mut out, self.timestamp_ms);
        let ghost o8 = out@;
        push_lit(&mut out, ",\"ttl_ms\":");
        let ghost o9 = out@;
        push_u64(&mut out, self.ttl_ms);
        let ghost o10 = out@;
        push_lit(&mut out, ",\"origin_signature\":");
        let ghost o11 = out@;
        push_u64(&mut out, self.origin_signature);
        let ghost o12 = out@;
        push_lit(&mut out, ",\"destination_signature\":");
        let ghost o13 = out@;
        push_opt_u64(&mut out, &self.destination_signature);
        let ghost o14 = out@;
        push_lit(&mut out, "}");
        proof {
            assert(out@ == o14 + t14);
            seq_assoc(o13, enc_opt_u64(self.destination_signature), t14);
            assert(out@ == o13 + t13);
            seq_assoc(o12, ",\"destination_signature\":".spec_bytes(), t13);
            assert(out@ == o12 + t12);
            seq_assoc(o11, dec_u64(self.origin_signature as int), t12);
            assert(out@ == o11 + t11);
            seq_assoc(o10, ",\"origin_signature\":".spec_bytes(), t11);
            assert(out@ == o10 + t10);
            seq_assoc(o9, dec_u64(self.ttl_ms as int), t10);
            assert(out@ == o9 + t9);
            seq_assoc(o8, ",\"ttl_ms\":".spec_bytes(), t9);
            assert(out@ == o8 + t8);
            seq_assoc(o7, dec_u64(self.timestamp_ms as int), t8);
            assert(out@ == o7 + t7);
            seq_assoc(o6, ",\"timestamp_ms\":".spec_bytes(), t7);
            assert(out@ == o6 + t6);
            seq_assoc(o5, dec_u64(self.session_pubkey as int), t6);
            assert(out@ == o5 + t5);
            seq_assoc(o4, ",\"session_pubkey\":".spec_bytes(), t5);
            assert(out@ == o4 + t4);
            assert(t12 == enc_pay_dsig(self.destination_signature));
            assert(t10 == enc_pay_osig(self.origin_signature, self.destination_signature));
            assert(t8 == enc_pay_ttl(self.ttl_ms, self.origin_signature, self.destination_signature));
            assert(t6 == enc_pay_ts(
                self.timestamp_ms,
                self.ttl_ms,
                self.origin_signature,
                self.destination_signature,
            ));
            assert(t4 == enc_pay_pk(
                self.session_pubkey,
                self.timestamp_ms,
                self.ttl_ms,
                self.origin_signature,
                self.destination_signature,
            ));
            seq_assoc(o3, enc_envelope(self.envelope), t4);
            assert(out@ == o3 + t3);
            seq_assoc(o2, ",\"envelope\":".spec_bytes(), t3);
            assert(out@ == o2 + t2);
            seq_assoc(o1, enc_message(self.body), t2);
            assert(out@ == o1 + t1);
            seq_assoc(o0, "{\"body\":".spec_bytes(), t1);
            assert(out@ == o0 + t0);
            seq_empty_left(t0, o0);
            assert(out@ == enc_payload(*self));
        }
        out
    }
}

/// Append a body in its wire form.
#[verifier::rlimit(100)]
fn push_message(out: &mut Vec<u8>, m: &Message)
    ensures
        final(out)@ == old(out)@ + enc_message(*m),
{
    push_lit(out, "{");
    out.push(34);
    match m {
        Message::ConnectNodeSend(cm) => {
            push_lit(out, "ConnectNodeSend");
            out.push(34);
            push_lit(out, ":");
            push_lit(out, "{\"sdp\":");
            push_json_string(out, &cm.sdp);
            push_lit(out, "}");
        },
        Message::ConnectNodeReport(cm) => {
            push_lit(out, "ConnectNodeReport");
            out.push(34);
            push_lit(out, ":");
            push_lit(out, "{\"sdp\":");
            push_json_string(out, &cm.sdp);
            push_lit(out, "}");
        },
        Message::JoinDHT(jm) => {
            push_lit(out, "JoinDHT");
            out.push(34);
            push_lit(out, ":");
            push_lit(out, "{\"id\":");
            push_did(out, &jm.id);
            push_lit(out, "}");
        },
        Message::LeaveDHT(lm) => {
            push_lit(out, "LeaveDHT");
            out.push(34);
            push_lit(out, ":");
            push_lit(out, "{\"id\":");
            push_did(out, &lm.id);
            push_lit(out, "}");
        },
    }
    push_lit(out, "}");
    proof {
        assert(final(out)@ =~= old(out)@ + enc_message(*m));
    }
}

/// Append an envelope in its wire form.
fn push_envelope(out: &mut Vec<u8>, e: &MessageRelay)
    ensures
        final(out)@ == old(out)@ + enc_envelope(*e),
{
    let ghost t10 = "}".spec_bytes();
    let ghost t9 = did_json(e.destination) + t10;
    let ghost t8 = ",\"destination\":".spec_bytes() + t9;
    let ghost t7 = enc_opt_did(e.next_hop) + t8;
    let ghost t6 = ",\"next_hop\":".spec_bytes() + t7;
    let ghost t5 = dec_u64(e.path_end_cursor as int) + t6;
    let ghost t4 = ",\"path_end_cursor\":".spec_bytes() + t5;
    let ghost t3 = enc_path(e.path@) + t4;
    let ghost t2 = ",\"path\":".spec_bytes() + t3;
    let ghost t1 = enc_method(e.method) + t2;
    let ghost t0 = "{\"method\":".spec_bytes() + t1;
    let ghost o0 = out@;
    push_lit(out, "{\"method\":");
    let ghost o1 = out@;
    match e.method {
        RelayMethod::SEND => {
            out.push(34);
            push_lit(out, "SEND");
            out.push(34);
            proof {
                assert(out@ =~= o1 + enc_method(e.method));
            }
        },
        RelayMethod::REPORT => {
            out.push(34);
            push_lit(out, "REPORT");
            out.push(34);
            proof {
                assert(out@ =~= o1 + enc_method(e.method));
            }
        },
    }
    let ghost o2 = out@;
    push_lit(out, ",\"path\":");
    let ghost o3 = out@;
    push_path(out, &e.path);
    let ghost o4 = out@;
    push_lit(out, ",\"path_end_cursor\":");
    let ghost o5 = out@;
    push_u64(out, e.path_end_cursor as u64);
    let ghost o6 = out@;
    push_lit(out, ",\"next_hop\":");
    let ghost o7 = out@;
    match &e.next_hop {
        None => {
            push_lit(out, "null");
        },
        Some(d) => {
            push_did(out, d);
        },
    }
    let ghost o8 = out@;
    push_lit(out, ",\"destination\":");
    let ghost o9 = out@;
    push_did(out, &e.destination);
    let ghost o10 = out@;
    push_lit(out, "}");
    proof {
        assert(out@ == o10 + t10);
        seq_assoc(o9, did_json(e.destination), t10);
        assert(out@ == o9 + t9);
        seq_assoc(o8, ",\"destination\":".spec_bytes(), t9);
        assert(out@ == o8 + t8);
        assert(o8 == o7 + enc_opt_did(e.next_hop));
        seq_assoc(o7, enc_opt_did(e.next_hop), t8);
        assert(out@ == o7 + t7);
        seq_assoc(o6, ",\"next_hop\":".spec_bytes(), t7);
        assert(out@ == o6 + t6);
        seq_assoc(o5, dec_u64(e.path_end_cursor as int), t6);
        assert(out@ == o5 + t5);
        seq_assoc(o4, ",\"path_end_cursor\":".spec_bytes(), t5);
        assert(out@ == o4 + t4);
        assert(t8 == enc_env_dest(e.destination));
        assert(t6 == enc_env_hop(e.next_hop, e.destination));
        assert(t4 == enc_env_cursor(e.path_end_cursor, e.next_hop, e.destination));
        seq_assoc(o3, enc_path(e.path@), t4);
        assert(out@ == o3 + t3);
        seq_assoc(o2, ",\"path\":".spec_bytes(), t3);
        assert(out@ == o2 + t2);
        seq_assoc(o1, enc_method(e.method), t2);
        assert(out@ == o1 + t1);
        seq_assoc(o0, "{\"method\":".spec_bytes(), t1);
        assert(out@ == o0 + t0);
        assert(final(out)@ == old(out)@ + enc_envelope(*e));
    }
}

/// Append a path in its wire form.
fn push_path(out: &mut Vec<u8>, path: &Vec<Did>)
    ensures
        final(out)@ == old(out)@ + enc_path(path@),
{
    if path.len() == 0 {
        push_lit(out, "[]");
    } else {
        push_lit(out, "[");
        push_did(out, &path[0]);
        push_path_tail(out, path, 1);
        proof {
            assert(path@.skip(1) =~= path@.skip(1));
            assert(final(out)@ =~= old(out)@ + enc_path(path@));
        }
    }
}

/// Append the tail of a path, from item `i` on.
fn push_path_tail(out: &mut Vec<u8>, path: &Vec<Did>, i: usize)
    requires
        1 <= i <= path@.len(),
    ensures
        final(out)@ == old(out)@ + enc_path_tail(path@.skip(i as int)),
    decreases path@.len() - i,
{
    if i == path.len() {
        push_lit(out, "]");
        proof {
            assert(path@.skip(i as int) =~= Seq::<Did>::empty());
        }
    } else {
        push_lit(out, ",");
        push_did(out, &path[i]);
        push_path_tail(out, path, i + 1);
        proof {
            let items = path@.skip(i as int);
            assert(items[0] == path@[i as int]);
            assert(items.drop_first() =~= path@.skip(i + 1));
            assert(final(out)@ =~= old(out)@ + enc_path_tail(items));
        }
    }
}

/// Append an optional signature in its wire form.
fn push_opt_u64(out: &mut Vec<u8>, o: &Option<u64>)
    ensures
        final(out)@ == old(out)@ + enc_opt_u64(*o),
{
    match o {
        None => {
            push_lit(out, "null");
        },
        Some(n) => {
            push_u64(out, *n);
        },
    }
}

/// The tag strings and method names fit the wire's string alphabet, and
/// their lengths tell them apart.
proof fn lemma_tag_facts()
    ensures
        json_safe("SEND".spec_bytes()),
        "SEND".spec_bytes().len() == 4,
        json_safe("REPORT".spec_bytes()),
        "REPORT".spec_bytes().len() == 6,
        json_safe("ConnectNodeSend".spec_bytes()),
        "ConnectNodeSend".spec_bytes().len() == 15,
        json_safe("ConnectNodeReport".spec_bytes()),
        "ConnectNodeReport".spec_bytes().len() == 17,
        json_safe("JoinDHT".spec_bytes()),
        "JoinDHT".spec_bytes().len() == 7,
        json_safe("LeaveDHT".spec_bytes()),
        "LeaveDHT".spec_bytes().len() == 8,
{
    reveal_strlit("SEND");
    reveal_strlit("REPORT");
    reveal_strlit("ConnectNodeSend");
    reveal_strlit("ConnectNodeReport");
    reveal_strlit("JoinDHT");
    reveal_strlit("LeaveDHT");
    assert("SEND".is_ascii());
    assert("REPORT".is_ascii());
    assert("ConnectNodeSend".is_ascii());
    assert("ConnectNodeReport".is_ascii());
    assert("JoinDHT".is_ascii());
    assert("LeaveDHT".is_ascii());
}

/// The concrete bytes of the short punctuation literals.
proof fn lemma_punct_facts()
    ensures
        "{".spec_bytes() =~= seq![123u8],
        "}".spec_bytes() =~= seq![125u8],
        ":".spec_bytes() =~= seq![58u8],
        ",".spec_bytes() =~= seq![44u8],
        "[".spec_bytes() =~= seq![91u8],
        "]".spec_bytes() =~= seq![93u8],
        "[]".spec_bytes() =~= seq![91u8, 93u8],
        "null".spec_bytes().len() == 4,
        "null".spec_bytes()[0] == 110u8,
{
    reveal_strlit("{");
    reveal_strlit("}");
    reveal_strlit(":");
    reveal_strlit(",");
    reveal_strlit("[");
    reveal_strlit("]");
    reveal_strlit("[]");
    reveal_strlit("null");
    assert("{".is_ascii());
    assert("}".is_ascii());
    assert(":".is_ascii());
    assert(",".is_ascii());
    assert("[".is_ascii());
    assert("]".is_ascii());
    assert("[]".is_ascii());
    assert("null".is_ascii());
}

/// Every field-name literal opens with a comma, so none of them can be
/// mistaken for the continuation of a decimal number.
proof fn lemma_key_facts()
    ensures
        ",\"envelope\":".spec_bytes()[0] == 44u8 && ",\"envelope\":".spec_bytes().len() > 0,
        ",\"session_pubkey\":".spec_bytes()[0] == 44u8 && ",\"session_pubkey\":".spec_bytes().len()
            > 0,
        ",\"timestamp_ms\":".spec_bytes()[0] == 44u8 && ",\"timestamp_ms\":".spec_bytes().len()
            > 0,
        ",\"ttl_ms\":".spec_bytes()[0] == 44u8 && ",\"ttl_ms\":".spec_bytes().len() > 0,
        ",\"origin_signature\":".spec_bytes()[0] == 44u8
            && ",\"origin_signature\":".spec_bytes().len() > 0,
        ",\"destination_signature\":".spec_bytes()[0] == 44u8
            && ",\"destination_signature\":".spec_bytes().len() > 0,
        ",\"path\":".spec_bytes()[0] == 44u8 && ",\"path\":".spec_bytes().len() > 0,
        ",\"path_end_cursor\":".spec_bytes()[0] == 44u8
            && ",\"path_end_cursor\":".spec_bytes().len() > 0,
        ",\"next_hop\":".spec_bytes()[0] == 44u8 && ",\"next_hop\":".spec_bytes().len() > 0,
        ",\"destination\":".spec_bytes()[0] == 44u8 && ",\"destination\":".spec_bytes().len() > 0,
{
    reveal_strlit(",\"envelope\":");
    reveal_strlit(",\"session_pubkey\":");
    reveal_strlit(",\"timestamp_ms\":");
    reveal_strlit(",\"ttl_ms\":");
    reveal_strlit(",\"origin_signature\":");
    reveal_strlit(",\"destination_signature\":");
    reveal_strlit(",\"path\":");
    reveal_strlit(",\"path_end_cursor\":");
    reveal_strlit(",\"next_hop\":");
    reveal_strlit(",\"destination\":");
    assert(",\"envelope\":".is_ascii());
    assert(",\"session_pubkey\":".is_ascii());
    assert(",\"timestamp_ms\":".is_ascii());
    assert(",\"ttl_ms\":".is_ascii());
    assert(",\"origin_signature\":".is_ascii());
    assert(",\"destination_signature\":".is_ascii());
    assert(",\"path\":".is_ascii());
    assert(",\"path_end_cursor\":".is_ascii());
    assert(",\"next_hop\":".is_ascii());
    assert(",\"destination\":".is_ascii());
}

/// Read a method name: accepts exactly `enc_method(m)`.
fn parse_method(v: &Vec<u8>, pos: usize) -> (r: Option<(RelayMethod, usize)>)
    ensures
        (match r {
            Some((m, np)) => pos <= np <= v@.len() && v@.subrange(pos as int, np as int)
                == enc_method(m),
            None => true,
        }),
        forall|m: RelayMethod|
            #![trigger enc_method(m)]
            (pos + enc_method(m).len() <= v@.len() && v@.subrange(
                pos as int,
                pos + enc_method(m).len(),
            ) == enc_method(m)) ==> r == Some((m, (pos + enc_method(m).len()) as usize)),
{
    proof {
        lemma_tag_facts();
    }
    match parse_json_string(v, pos) {
        None => {
            proof {
                assert forall|m: RelayMethod|
                    (pos + enc_method(m).len() <= v@.len() && v@.subrange(
                        pos as int,
                        pos + enc_method(m).len(),
                    ) == enc_method(m)) implies false by {
                    match m {
                        RelayMethod::SEND => {
                            assert(enc_method(m) == json_string("SEND".spec_bytes()));
                        },
                        RelayMethod::REPORT => {
                            assert(enc_method(m) == json_string("REPORT".spec_bytes()));
                        },
                    }
                }
            }
            None
        },
        Some((s, np)) => {
            if bytes_eq_lit(&s, "SEND") {
                Some((RelayMethod::SEND, np))
            } else if bytes_eq_lit(&s, "REPORT") {
                Some((RelayMethod::REPORT, np))
            } else {
                proof {
                    assert forall|m: RelayMethod|
                        (pos + enc_method(m).len() <= v@.len() && v@.subrange(
                            pos as int,
                            pos + enc_method(m).len(),
                        ) == enc_method(m)) implies false by {
                        match m {
                            RelayMethod::SEND => {
                                assert(enc_method(m) == json_string("SEND".spec_bytes()));
                            },
                            RelayMethod::REPORT => {
                                assert(enc_method(m) == json_string("REPORT".spec_bytes()));
                            },
                        }
                    }
                }
                None
            }
        },
    }
}

/// Read a DID or `null`: accepts exactly `enc_opt_did(o)`.
fn parse_opt_did(v: &Vec<u8>, pos: usize) -> (r: Option<(Option<Did>, usize)>)
    ensures
        (match r {
            Some((o, np)) => pos <= np <= v@.len() && v@.subrange(pos as int, np as int)
                == enc_opt_did(o),
            None => true,
        }),
        forall|o: Option<Did>|
            #![trigger enc_opt_did(o)]
            (pos + enc_opt_did(o).len() <= v@.len() && v@.subrange(
                pos as int,
                pos + enc_opt_did(o).len(),
            ) == enc_opt_did(o)) ==> r == Some((o, (pos + enc_opt_did(o).len()) as usize)),
{
    proof {
        lemma_punct_facts();
    }
    match take_lit(v, pos, "null") {
        Some(np) => {
            proof {
                assert forall|o: Option<Did>|
                    (pos + enc_opt_did(o).len() <= v@.len() && v@.subrange(
                        pos as int,
                        pos + enc_opt_did(o).len(),
                    ) == enc_opt_did(o)) implies Some((Option::<Did>::None, np)) == Some((
                    o,
                    (pos + enc_opt_did(o).len()) as usize,
                )) by {
                    if o is Some {
                        assert(v@[pos as int] == enc_opt_did(o)[0]);
                        assert(v@[pos as int] == "null".spec_bytes()[0]);
                    }
                }
            }
            Some((None, np))
        },
        None => {
            match parse_did(v, pos) {
                Some((d, np)) => {
                    proof {
                        assert forall|o: Option<Did>|
                            (pos + enc_opt_did(o).len() <= v@.len() && v@.subrange(
                                pos as int,
                                pos + enc_opt_did(o).len(),
                            ) == enc_opt_did(o)) implies Some((Some(d), np)) == Some((
                            o,
                            (pos + enc_opt_did(o).len()) as usize,
                        )) by {
                            if o is None {
                                assert(v@[pos as int] == "null".spec_bytes()[0]);
                                assert(v@[pos as int] == did_json(d)[0]);
                            }
                        }
                    }
                    Some((Some(d), np))
                },
                None => {
                    proof {
                        assert forall|o: Option<Did>|
                            (pos + enc_opt_did(o).len() <= v@.len() && v@.subrange(
                                pos as int,
                                pos + enc_opt_did(o).len(),
                            ) == enc_opt_did(o)) implies false by {
                            if o is None {
                                assert(lit_at(v@, pos as int, "null"));
                            }
                        }
                    }
                    None
                },
            }
        },
    }
}

/// Read a number or `null`: accepts exactly `enc_opt_u64(o)` when a
/// non-digit or the end follows it.
fn parse_opt_u64(v: &Vec<u8>, pos: usize) -> (r: Option<(Option<u64>, usize)>)
    ensures
        (match r {
            Some((o, np)) => pos <= np <= v@.len() && v@.subrange(pos as int, np as int)
                == enc_opt_u64(o),
            None => true,
        }),
        forall|o: Option<u64>|
            #![trigger enc_opt_u64(o)]
            (pos + enc_opt_u64(o).len() <= v@.len() && v@.subrange(
                pos as int,
                pos + enc_opt_u64(o).len(),
            ) == enc_opt_u64(o) && (pos + enc_opt_u64(o).len() == v@.len() || !is_digit(
                v@[pos + enc_opt_u64(o).len()],
            ))) ==> r == Some((o, (pos + enc_opt_u64(o).len()) as usize)),
{
    proof {
        lemma_punct_facts();
    }
    match take_lit(v, pos, "null") {
        Some(np) => {
            proof {
                assert forall|o: Option<u64>|
                    (pos + enc_opt_u64(o).len() <= v@.len() && v@.subrange(
                        pos as int,
                        pos + enc_opt_u64(o).len(),
                    ) == enc_opt_u64(o) && (pos + enc_opt_u64(o).len() == v@.len() || !is_digit(
                        v@[pos + enc_opt_u64(o).len()],
                    ))) implies Some((Option::<u64>::None, np)) == Some((
                    o,
                    (pos + enc_opt_u64(o).len()) as usize,
                )) by {
                    match o {
                        Some(n) => {
                            crate::wire::lemma_dec_u64_props(n as int);
                            assert(v@[pos as int] == enc_opt_u64(o)[0]);
                            assert(v@[pos as int] == "null".spec_bytes()[0]);
                        },
                        None => {},
                    }
                }
            }
            Some((None, np))
        },
        None => {
            match parse_u64(v, pos) {
                Some((n, np)) => {
                    proof {
                        assert forall|o: Option<u64>|
                            (pos + enc_opt_u64(o).len() <= v@.len() && v@.subrange(
                                pos as int,
                                pos + enc_opt_u64(o).len(),
                            ) == enc_opt_u64(o) && (pos + enc_opt_u64(o).len() == v@.len()
                                || !is_digit(v@[pos + enc_opt_u64(o).len()]))) implies Some((
                            Some(n),
                            np,
                        )) == Some((o, (pos + enc_opt_u64(o).len()) as usize)) by {
                            if o is None {
                                crate::wire::lemma_dec_u64_props(n as int);
                                assert(v@.subrange(pos as int, np as int) == dec_u64(n as int));
                                assert(v@[pos as int] == "null".spec_bytes()[0]);
                                assert(is_digit(v@[pos as int]));
                            }
                        }
                    }
                    Some((Some(n), np))
                },
                None => {
                    proof {
                        assert forall|o: Option<u64>|
                            (pos + enc_opt_u64(o).len() <= v@.len() && v@.subrange(
                                pos as int,
                                pos + enc_opt_u64(o).len(),
                            ) == enc_opt_u64(o) && (pos + enc_opt_u64(o).len() == v@.len()
                                || !is_digit(v@[pos + enc_opt_u64(o).len()]))) implies false by {
                            if o is None {
                                assert(lit_at(v@, pos as int, "null"));
                            }
                        }
                    }
                    None
                },
            }
        },
    }
}

/// Read the tail of a path from `pos`, appending its items: accepts exactly
/// `enc_path_tail(items)`.
fn parse_path_tail(v: &Vec<u8>, pos: usize, items: &mut Vec<Did>) -> (r: Option<usize>)
    ensures
        (match r {
            Some(np) => pos < np <= v@.len() && final(items)@.len() >= old(items)@.len() && final(items)@.take(old(items)@.len() as int) == old(items)@ && v@.subrange(pos as int, np as int)
                == enc_path_tail(final(items)@.skip(old(items)@.len() as int)),
            None => true,
        }),
        forall|tail: Seq<Did>|
            #![trigger enc_path_tail(tail)]
            (pos + enc_path_tail(tail).len() <= v@.len() && v@.subrange(
                pos as int,
                pos + enc_path_tail(tail).len(),
            ) == enc_path_tail(tail)) ==> (match r {
                Some(np) => final(items)@ == old(items)@ + tail && np == pos + enc_path_tail(
                    tail,
                ).len(),
                None => false,
            }),
    decreases v@.len() - pos,
{
    proof {
        lemma_punct_facts();
    }
    match take_lit(v, pos, "]") {
        Some(np) => {
            proof {
                assert(final(items)@.skip(old(items)@.len() as int) =~= Seq::<Did>::empty());
                assert(final(items)@.take(old(items)@.len() as int) =~= old(items)@);
                assert forall|tail: Seq<Did>|
                    (pos + enc_path_tail(tail).len() <= v@.len() && v@.subrange(
                        pos as int,
                        pos + enc_path_tail(tail).len(),
                    ) == enc_path_tail(tail)) implies final(items)@ == old(items)@ + tail && np
                    == pos + enc_path_tail(tail).len() by {
                    if tail.len() > 0 {
                        assert(v@[pos as int] == enc_path_tail(tail)[0]);
                        assert(v@[pos as int] == "]".spec_bytes()[0]);
                    }
                    assert(final(items)@ =~= old(items)@ + tail);
                }
            }
            Some(np)
        },
        None => {
            let np1 = match take_lit(v, pos, ",") {
                Some(np1) => np1,
                None => {
                    proof {
                        path_tail_head_contradiction(v@, pos as int);
                    }
                    return None;
                },
            };
            let (d, np2) = match parse_did(v, np1) {
                Some(x) => x,
                None => {
                    proof {
                        path_tail_did_contradiction(v@, pos as int);
                    }
                    return None;
                },
            };
            items.push(d);
            let ghost mid = items@;
            let r2 = parse_path_tail(v, np2, items);
            match r2 {
                Some(np3) => {
                    proof {
                        let base = old(items)@.len() as int;
                        let app = final(items)@.skip(base);
                        assert(final(items)@.take(mid.len() as int) == mid);
                        assert(mid.len() == base + 1);
                        assert(final(items)@.take(base) =~= mid.take(base));
                        assert(mid.take(base) =~= old(items)@);
                        assert(final(items)@[base] == final(items)@.take(mid.len() as int)[base]);
                        assert(app[0] == d);
                        assert(app.drop_first() =~= final(items)@.skip(mid.len() as int));
                        lemma_subrange_stitch(v@, pos as int, np1 as int, np3 as int);
                        lemma_subrange_stitch(v@, np1 as int, np2 as int, np3 as int);
                        assert(v@.subrange(pos as int, np3 as int) == ",".spec_bytes() + (did_json(
                            d,
                        ) + enc_path_tail(app.drop_first())));
                        assert(v@.subrange(pos as int, np3 as int) == enc_path_tail(app));
                        assert forall|tail: Seq<Did>|
                            (pos + enc_path_tail(tail).len() <= v@.len() && v@.subrange(
                                pos as int,
                                pos + enc_path_tail(tail).len(),
                            ) == enc_path_tail(tail)) implies final(items)@ == old(items)@ + tail
                            && np3 == pos + enc_path_tail(tail).len() by {
                            if tail.len() == 0 {
                                assert(v@[pos as int] == enc_path_tail(tail)[0]);
                                assert(v@[pos as int] == ",".spec_bytes()[0]);
                                assert(lit_at(v@, pos as int, "]"));
                            } else {
                                let qe = pos + enc_path_tail(tail).len();
                                lemma_split_at(
                                    v@,
                                    pos as int,
                                    qe,
                                    ",".spec_bytes(),
                                    did_json(tail[0]) + enc_path_tail(tail.drop_first()),
                                );
                                lemma_split_at(
                                    v@,
                                    pos + 1,
                                    qe,
                                    did_json(tail[0]),
                                    enc_path_tail(tail.drop_first()),
                                );
                                assert(v@.subrange(np1 as int, np1 + 44) == did_json(tail[0]));
                                assert(d == tail[0]);
                                assert(final(items)@ == mid + tail.drop_first());
                                assert(final(items)@ =~= old(items)@ + tail);
                            }
                        }
                    }
                    Some(np3)
                },
                None => {
                    proof {
                        assert forall|tail: Seq<Did>|
                            (pos + enc_path_tail(tail).len() <= v@.len() && v@.subrange(
                                pos as int,
                                pos + enc_path_tail(tail).len(),
                            ) == enc_path_tail(tail)) implies false by {
                            if tail.len() == 0 {
                                assert(v@[pos as int] == enc_path_tail(tail)[0]);
                                assert(v@[pos as int] == ",".spec_bytes()[0]);
                                assert(lit_at(v@, pos as int, "]"));
                            } else {
                                let qe = pos + enc_path_tail(tail).len();
                                lemma_split_at(
                                    v@,
                                    pos as int,
                                    qe,
                                    ",".spec_bytes(),
                                    did_json(tail[0]) + enc_path_tail(tail.drop_first()),
                                );
                                lemma_split_at(
                                    v@,
                                    pos + 1,
                                    qe,
                                    did_json(tail[0]),
                                    enc_path_tail(tail.drop_first()),
                                );
                                assert(d == tail[0]);
                            }
                        }
                    }
                    None
                },
            }
        },
    }
}

/// Neither a closing bracket nor a comma stands at `pos`, so no path tail
/// starts here.
proof fn path_tail_head_contradiction(v: Seq<u8>, pos: int)
    requires
        0 <= pos,
        !lit_at(v, pos, "]"),
        !lit_at(v, pos, ","),
    ensures
        forall|tail: Seq<Did>|
            #![trigger enc_path_tail(tail)]
            !(pos + enc_path_tail(tail).len() <= v.len() && v.subrange(
                pos,
                pos + enc_path_tail(tail).len(),
            ) == enc_path_tail(tail)),
{
    lemma_punct_facts();
    assert forall|tail: Seq<Did>|
        (pos + enc_path_tail(tail).len() <= v.len() && v.subrange(
            pos,
            pos + enc_path_tail(tail).len(),
        ) == enc_path_tail(tail)) implies false by {
        if tail.len() == 0 {
            assert(v.subrange(pos, pos + 1) =~= "]".spec_bytes());
        } else {
            let qe = pos + enc_path_tail(tail).len();
            lemma_split_at(
                v,
                pos,
                qe,
                ",".spec_bytes(),
                did_json(tail[0]) + enc_path_tail(tail.drop_first()),
            );
        }
    }
}

/// A comma stands at `pos` but no DID follows it, so no path tail starts
/// here.
proof fn path_tail_did_contradiction(v: Seq<u8>, pos: int)
    requires
        0 <= pos,
        lit_at(v, pos, ","),
        !lit_at(v, pos, "]"),
        forall|d: Did|
            #![trigger did_json(d)]
            !(pos + 1 + 44 <= v.len() && v.subrange(pos + 1, pos + 45) == did_json(d)),
    ensures
        forall|tail: Seq<Did>|
            #![trigger enc_path_tail(tail)]
            !(pos + enc_path_tail(tail).len() <= v.len() && v.subrange(
                pos,
                pos + enc_path_tail(tail).len(),
            ) == enc_path_tail(tail)),
{
    lemma_punct_facts();
    assert forall|tail: Seq<Did>|
        (pos + enc_path_tail(tail).len() <= v.len() && v.subrange(
            pos,
            pos + enc_path_tail(tail).len(),
        ) == enc_path_tail(tail)) implies false by {
        if tail.len() == 0 {
            assert(v.subrange(pos, pos + 1) =~= "]".spec_bytes());
        } else {
            let qe = pos + enc_path_tail(tail).len();
            lemma_split_at(
                v,
                pos,
                qe,
                ",".spec_bytes(),
                did_json(tail[0]) + enc_path_tail(tail.drop_first()),
            );
            lemma_split_at(v, pos + 1, qe, did_json(tail[0]), enc_path_tail(tail.drop_first()));
        }
    }
}

/// Read a whole path: accepts exactly `enc_path(ps)`.
fn parse_path(v: &Vec<u8>, pos: usize) -> (r: Option<(Vec<Did>, usize)>)
    ensures
        (match r {
            Some((p, np)) => pos <= np <= v@.len() && v@.subrange(pos as int, np as int)
                == enc_path(p@),
            None => true,
        }),
        forall|ps: Seq<Did>|
            #![trigger enc_path(ps)]
            (pos + enc_path(ps).len() <= v@.len() && v@.subrange(pos as int, pos + enc_path(
                ps,
            ).len()) == enc_path(ps)) ==> (match r {
                Some((p, np)) => p@ == ps && np == pos + enc_path(ps).len(),
                None => false,
            }),
{
    proof {
        lemma_punct_facts();
    }
    match take_lit(v, pos, "[]") {
        Some(np) => {
            let empty: Vec<Did> = Vec::new();
            proof {
                assert(v@.subrange(pos as int, np as int) == enc_path(empty@));
                assert forall|ps: Seq<Did>|
                    (pos + enc_path(ps).len() <= v@.len() && v@.subrange(
                        pos as int,
                        pos + enc_path(ps).len(),
                    ) == enc_path(ps)) implies empty@ == ps && np == pos + enc_path(ps).len() by {
                    if ps.len() > 0 {
                        assert(v@[pos + 1] == enc_path(ps)[1]);
                        assert(enc_path(ps)[1] == did_json(ps[0])[0]);
                        assert(v@[pos + 1] == "[]".spec_bytes()[1]);
                    }
                    assert(empty@ =~= ps);
                }
            }
            return Some((empty, np));
        },
        None => {},
    }
    let np1 = match take_lit(v, pos, "[") {
        Some(np1) => np1,
        None => {
            proof {
                assert forall|ps: Seq<Did>|
                    (pos + enc_path(ps).len() <= v@.len() && v@.subrange(
                        pos as int,
                        pos + enc_path(ps).len(),
                    ) == enc_path(ps)) implies false by {
                    if ps.len() == 0 {
                        assert(v@.subrange(pos as int, pos + 1) =~= "[".spec_bytes());
                    } else {
                        let qe = pos + enc_path(ps).len();
                        lemma_split_at(
                            v@,
                            pos as int,
                            qe,
                            "[".spec_bytes(),
                            did_json(ps[0]) + enc_path_tail(ps.skip(1)),
                        );
                    }
                }
            }
            return None;
        },
    };
    let (d0, np2) = match parse_did(v, np1) {
        Some(x) => x,
        None => {
            proof {
                assert forall|ps: Seq<Did>|
                    (pos + enc_path(ps).len() <= v@.len() && v@.subrange(
                        pos as int,
                        pos + enc_path(ps).len(),
                    ) == enc_path(ps)) implies false by {
                    if ps.len() == 0 {
                        assert(lit_at(v@, pos as int, "[]"));
                    } else {
                        let qe = pos + enc_path(ps).len();
                        lemma_split_at(
                            v@,
                            pos as int,
                            qe,
                            "[".spec_bytes(),
                            did_json(ps[0]) + enc_path_tail(ps.skip(1)),
                        );
                        lemma_split_at(
                            v@,
                            pos + 1,
                            qe,
                            did_json(ps[0]),
                            enc_path_tail(ps.skip(1)),
                        );
                    }
                }
            }
            return None;
        },
    };
    let mut items: Vec<Did> = Vec::new();
    items.push(d0);
    match parse_path_tail(v, np2, &mut items) {
        Some(np3) => {
            proof {
                assert(items@.take(1int) =~= seq![d0]);
                assert(items@[0] == items@.take(1int)[0]);
                lemma_subrange_stitch(v@, pos as int, np1 as int, np3 as int);
                lemma_subrange_stitch(v@, np1 as int, np2 as int, np3 as int);
                assert(v@.subrange(pos as int, np3 as int) == "[".spec_bytes() + (did_json(d0)
                    + enc_path_tail(items@.skip(1))));
                assert(v@.subrange(pos as int, np3 as int) == enc_path(items@));
                assert forall|ps: Seq<Did>|
                    (pos + enc_path(ps).len() <= v@.len() && v@.subrange(
                        pos as int,
                        pos + enc_path(ps).len(),
                    ) == enc_path(ps)) implies items@ == ps && np3 == pos + enc_path(ps).len() by {
                    if ps.len() == 0 {
                        assert(lit_at(v@, pos as int, "[]"));
                    } else {
                        let qe = pos + enc_path(ps).len();
                        lemma_split_at(
                            v@,
                            pos as int,
                            qe,
                            "[".spec_bytes(),
                            did_json(ps[0]) + enc_path_tail(ps.skip(1)),
                        );
                        lemma_split_at(
                            v@,
                            pos + 1,
                            qe,
                            did_json(ps[0]),
                            enc_path_tail(ps.skip(1)),
                        );
                        assert(d0 == ps[0]);
                        assert(items@ == seq![d0] + ps.skip(1));
                        assert(items@ =~= ps);
                    }
                }
            }
            Some((items, np3))
        },
        None => {
            proof {
                assert forall|ps: Seq<Did>|
                    (pos + enc_path(ps).len() <= v@.len() && v@.subrange(
                        pos as int,
                        pos + enc_path(ps).len(),
                    ) == enc_path(ps)) implies false by {
                    if ps.len() == 0 {
                        assert(lit_at(v@, pos as int, "[]"));
                    } else {
                        let qe = pos + enc_path(ps).len();
                        lemma_split_at(
                            v@,
                            pos as int,
                            qe,
                            "[".spec_bytes(),
                            did_json(ps[0]) + enc_path_tail(ps.skip(1)),
                        );
                        lemma_split_at(
                            v@,
                            pos + 1,
                            qe,
                            did_json(ps[0]),
                            enc_path_tail(ps.skip(1)),
                        );
                    }
                }
            }
            None
        },
    }
}


/// The field-name literals of the sdp and id single-field objects.
proof fn lemma_inner_facts()
    ensures
        "{\"sdp\":".spec_bytes().len() == 7,
        "{\"sdp\":".spec_bytes()[0] == 123u8,
        "{\"id\":".spec_bytes().len() == 6,
        "{\"id\":".spec_bytes()[0] == 123u8,
{
    reveal_strlit("{\"sdp\":");
    reveal_strlit("{\"id\":");
    assert("{\"sdp\":".is_ascii());
    assert("{\"id\":".is_ascii());
}

/// The single-field object holding an sdp string.
pub open spec fn enc_sdp_inner(s: Seq<u8>) -> Seq<u8> {
    "{\"sdp\":".spec_bytes() + (json_string(s) + "}".spec_bytes())
}

/// The single-field object holding a DID.
pub open spec fn enc_id_inner(d: Did) -> Seq<u8> {
    "{\"id\":".spec_bytes() + (did_json(d) + "}".spec_bytes())
}

/// Read an sdp object: accepts exactly `enc_sdp_inner(s)` for safe `s`.
fn parse_sdp_inner(v: &Vec<u8>, pos: usize) -> (r: Option<(Vec<u8>, usize)>)
    ensures
        (match r {
            Some((sdp, np)) => pos <= np <= v@.len() && v@.subrange(pos as int, np as int)
                == enc_sdp_inner(sdp@) && json_safe(sdp@),
            None => true,
        }),
        forall|s: Seq<u8>|
            #![trigger enc_sdp_inner(s)]
            (json_safe(s) && pos + enc_sdp_inner(s).len() <= v@.len() && v@.subrange(
                pos as int,
                pos + enc_sdp_inner(s).len(),
            ) == enc_sdp_inner(s)) ==> (match r {
                Some((sdp, np)) => sdp@ == s && np == pos + enc_sdp_inner(s).len(),
                None => false,
            }),
{
    proof {
        lemma_punct_facts();
        lemma_inner_facts();
    }
    let np1 = match take_lit(v, pos, "{\"sdp\":") {
        Some(np1) => np1,
        None => {
            proof {
                assert forall|s: Seq<u8>|
                    (json_safe(s) && pos + enc_sdp_inner(s).len() <= v@.len() && v@.subrange(
                        pos as int,
                        pos + enc_sdp_inner(s).len(),
                    ) == enc_sdp_inner(s)) implies false by {
                    lemma_split_at(
                        v@,
                        pos as int,
                        pos + enc_sdp_inner(s).len(),
                        "{\"sdp\":".spec_bytes(),
                        json_string(s) + "}".spec_bytes(),
                    );
                }
            }
            return None;
        },
    };
    let (sdp, np2) = match parse_json_string(v, np1) {
        Some(x) => x,
        None => {
            proof {
                assert forall|s: Seq<u8>|
                    (json_safe(s) && pos + enc_sdp_inner(s).len() <= v@.len() && v@.subrange(
                        pos as int,
                        pos + enc_sdp_inner(s).len(),
                    ) == enc_sdp_inner(s)) implies false by {
                    let qe = pos + enc_sdp_inner(s).len();
                    lemma_split_at(
                        v@,
                        pos as int,
                        qe,
                        "{\"sdp\":".spec_bytes(),
                        json_string(s) + "}".spec_bytes(),
                    );
                    lemma_split_at(v@, pos + 7, qe, json_string(s), "}".spec_bytes());
                }
            }
            return None;
        },
    };
    match take_lit(v, np2, "}") {
        Some(np3) => {
            proof {
                lemma_subrange_stitch(v@, np1 as int, np2 as int, np3 as int);
                lemma_subrange_stitch(v@, pos as int, np1 as int, np3 as int);
                assert(v@.subrange(pos as int, np3 as int) == enc_sdp_inner(sdp@));
                assert forall|s: Seq<u8>|
                    (json_safe(s) && pos + enc_sdp_inner(s).len() <= v@.len() && v@.subrange(
                        pos as int,
                        pos + enc_sdp_inner(s).len(),
                    ) == enc_sdp_inner(s)) implies sdp@ == s && np3 == pos + enc_sdp_inner(
                    s,
                ).len() by {
                    let qe = pos + enc_sdp_inner(s).len();
                    lemma_split_at(
                        v@,
                        pos as int,
                        qe,
                        "{\"sdp\":".spec_bytes(),
                        json_string(s) + "}".spec_bytes(),
                    );
                    lemma_split_at(v@, pos + 7, qe, json_string(s), "}".spec_bytes());
                }
            }
            Some((sdp, np3))
        },
        None => {
            proof {
                assert forall|s: Seq<u8>|
                    (json_safe(s) && pos + enc_sdp_inner(s).len() <= v@.len() && v@.subrange(
                        pos as int,
                        pos + enc_sdp_inner(s).len(),
                    ) == enc_sdp_inner(s)) implies false by {
                    let qe = pos + enc_sdp_inner(s).len();
                    lemma_split_at(
                        v@,
                        pos as int,
                        qe,
                        "{\"sdp\":".spec_bytes(),
                        json_string(s) + "}".spec_bytes(),
                    );
                    lemma_split_at(v@, pos + 7, qe, json_string(s), "}".spec_bytes());
                    assert(sdp@ == s && np2 == pos + 7 + s.len() + 2);
                }
            }
            None
        },
    }
}

/// Read an id object: accepts exactly `enc_id_inner(d)`.
fn parse_id_inner(v: &Vec<u8>, pos: usize) -> (r: Option<(Did, usize)>)
    ensures
        (match r {
            Some((d, np)) => pos <= np <= v@.len() && v@.subrange(pos as int, np as int)
                == enc_id_inner(d),
            None => true,
        }),
        forall|d: Did|
            #![trigger enc_id_inner(d)]
            (pos + enc_id_inner(d).len() <= v@.len() && v@.subrange(
                pos as int,
                pos + enc_id_inner(d).len(),
            ) == enc_id_inner(d)) ==> (match r {
                Some((rd, np)) => rd == d && np == pos + enc_id_inner(d).len(),
                None => false,
            }),
{
    proof {
        lemma_punct_facts();
        lemma_inner_facts();
    }
    let np1 = match take_lit(v, pos, "{\"id\":") {
        Some(np1) => np1,
        None => {
            proof {
                assert forall|d: Did|
                    (pos + enc_id_inner(d).len() <= v@.len() && v@.subrange(
                        pos as int,
                        pos + enc_id_inner(d).len(),
                    ) == enc_id_inner(d)) implies false by {
                    lemma_split_at(
                        v@,
                        pos as int,
                        pos + enc_id_inner(d).len(),
                        "{\"id\":".spec_bytes(),
                        did_json(d) + "}".spec_bytes(),
                    );
                }
            }
            return None;
        },
    };
    let (d, np2) = match parse_did(v, np1) {
        Some(x) => x,
        None => {
            proof {
                assert forall|d: Did|
                    (pos + enc_id_inner(d).len() <= v@.len() && v@.subrange(
                        pos as int,
                        pos + enc_id_inner(d).len(),
                    ) == enc_id_inner(d)) implies false by {
                    let qe = pos + enc_id_inner(d).len();
                    lemma_split_at(
                        v@,
                        pos as int,
                        qe,
                        "{\"id\":".spec_bytes(),
                        did_json(d) + "}".spec_bytes(),
                    );
                    lemma_split_at(v@, pos + 6, qe, did_json(d), "}".spec_bytes());
                }
            }
            return None;
        },
    };
    match take_lit(v, np2, "}") {
        Some(np3) => {
            proof {
                lemma_subrange_stitch(v@, np1 as int, np2 as int, np3 as int);
                lemma_subrange_stitch(v@, pos as int, np1 as int, np3 as int);
                assert(v@.subrange(pos as int, np3 as int) == enc_id_inner(d));
                assert forall|d2: Did|
                    (pos + enc_id_inner(d2).len() <= v@.len() && v@.subrange(
                        pos as int,
                        pos + enc_id_inner(d2).len(),
                    ) == enc_id_inner(d2)) implies d == d2 && np3 == pos + enc_id_inner(
                    d2,
                ).len() by {
                    let qe = pos + enc_id_inner(d2).len();
                    lemma_split_at(
                        v@,
                        pos as int,
                        qe,
                        "{\"id\":".spec_bytes(),
                        did_json(d2) + "}".spec_bytes(),
                    );
                    lemma_split_at(v@, pos + 6, qe, did_json(d2), "}".spec_bytes());
                }
            }
            Some((d, np3))
        },
        None => {
            proof {
                assert forall|d2: Did|
                    (pos + enc_id_inner(d2).len() <= v@.len() && v@.subrange(
                        pos as int,
                        pos + enc_id_inner(d2).len(),
                    ) == enc_id_inner(d2)) implies false by {
                    let qe = pos + enc_id_inner(d2).len();
                    lemma_split_at(
                        v@,
                        pos as int,
                        qe,
                        "{\"id\":".spec_bytes(),
                        did_json(d2) + "}".spec_bytes(),
                    );
                    lemma_split_at(v@, pos + 6, qe, did_json(d2), "}".spec_bytes());
                    assert(d == d2 && np2 == pos + 6 + 44);
                }
            }
            None
        },
    }
}

/// Where each piece of an encoded body stands.
proof fn lemma_message_layout(v: Seq<u8>, pos: int, m: Message)
    requires
        0 <= pos,
        pos + enc_message(m).len() <= v.len(),
        v.subrange(pos, pos + enc_message(m).len()) == enc_message(m),
    ensures
        ({
            let q1 = pos + 1;
            let q2 = q1 + message_tag(m).len() + 2;
            let q3 = q2 + 1;
            let q4 = q3 + message_inner(m).len();
            let q5 = q4 + 1;
            &&& q5 == pos + enc_message(m).len()
            &&& v.subrange(pos, q1) == "{".spec_bytes()
            &&& v.subrange(q1, q2) == json_string(message_tag(m))
            &&& v.subrange(q2, q3) == ":".spec_bytes()
            &&& v.subrange(q3, q4) == message_inner(m)
            &&& v.subrange(q4, q5) == "}".spec_bytes()
        }),
{
    lemma_punct_facts();
    let end = pos + enc_message(m).len();
    let tail1 = json_string(message_tag(m)) + (":".spec_bytes() + (message_inner(m)
        + "}".spec_bytes()));
    lemma_split_at(v, pos, end, "{".spec_bytes(), tail1);
    let tail2 = ":".spec_bytes() + (message_inner(m) + "}".spec_bytes());
    lemma_split_at(v, pos + 1, end, json_string(message_tag(m)), tail2);
    let tail3 = message_inner(m) + "}".spec_bytes();
    lemma_split_at(v, pos + 1 + (message_tag(m).len() + 2), end, ":".spec_bytes(), tail3);
    lemma_split_at(
        v,
        pos + 1 + (message_tag(m).len() + 2) + 1,
        end,
        message_inner(m),
        "}".spec_bytes(),
    );
}

/// Read a body: accepts exactly `enc_message(m)` for well-formed `m`.
#[verifier::rlimit(100)]
fn parse_message(v: &Vec<u8>, pos: usize) -> (r: Option<(Message, usize)>)
    ensures
        (match r {
            Some((m, np)) => pos <= np <= v@.len() && v@.subrange(pos as int, np as int)
                == enc_message(m) && m.wf(),
            None => true,
        }),
        forall|m: Message|
            #![trigger enc_message(m)]
            (m.wf() && pos + enc_message(m).len() <= v@.len() && v@.subrange(
                pos as int,
                pos + enc_message(m).len(),
            ) == enc_message(m)) ==> (match r {
                Some((rm, np)) => same_message(rm, m) && np == pos + enc_message(m).len(),
                None => false,
            }),
{
    proof {
        lemma_tag_facts();
        lemma_punct_facts();
    }
    let np1 = match take_lit(v, pos, "{") {
        Some(np1) => np1,
        None => {
            proof {
                assert forall|m: Message|
                    (m.wf() && pos + enc_message(m).len() <= v@.len() && v@.subrange(
                        pos as int,
                        pos + enc_message(m).len(),
                    ) == enc_message(m)) implies false by {
                    lemma_message_layout(v@, pos as int, m);
                }
            }
            return None;
        },
    };
    let (tag, np2) = match parse_json_string(v, np1) {
        Some(x) => x,
        None => {
            proof {
                assert forall|m: Message|
                    (m.wf() && pos + enc_message(m).len() <= v@.len() && v@.subrange(
                        pos as int,
                        pos + enc_message(m).len(),
                    ) == enc_message(m)) implies false by {
                    lemma_message_layout(v@, pos as int, m);
                    assert(json_safe(message_tag(m)));
                }
            }
            return None;
        },
    };
    let np3 = match take_lit(v, np2, ":") {
        Some(np3) => np3,
        None => {
            proof {
                assert forall|m: Message|
                    (m.wf() && pos + enc_message(m).len() <= v@.len() && v@.subrange(
                        pos as int,
                        pos + enc_message(m).len(),
                    ) == enc_message(m)) implies false by {
                    lemma_message_layout(v@, pos as int, m);
                    assert(json_safe(message_tag(m)));
                    assert(tag@ == message_tag(m));
                }
            }
            return None;
        },
    };
    if bytes_eq_lit(&tag, "ConnectNodeSend") {
        let (sdp, np4) = match parse_sdp_inner(v, np3) {
            Some(x) => x,
            None => {
                proof {
                    assert forall|m: Message|
                        (m.wf() && pos + enc_message(m).len() <= v@.len() && v@.subrange(
                            pos as int,
                            pos + enc_message(m).len(),
                        ) == enc_message(m)) implies false by {
                        lemma_message_layout(v@, pos as int, m);
                        assert(json_safe(message_tag(m)));
                        assert(tag@ == message_tag(m));
                        assert(message_tag(m) == "ConnectNodeSend".spec_bytes());
                        match m {
                            Message::ConnectNodeSend(cm) => {
                            assert(message_inner(m) == enc_sdp_inner(cm.sdp@));
                            assert(json_safe(cm.sdp@));
                                assert(np3 as int == pos + 1 + message_tag(m).len() + 2 + 1);
                            },
                            _ => {},
                        }
                    }
                }
                return None;
            },
        };
        match take_lit(v, np4, "}") {
            Some(np5) => {
                let m = Message::ConnectNodeSend(ConnectNodeSend { sdp });
                proof {
                    message_sound_stitch(v@, pos as int, np1 as int, np2 as int, np3 as int, np4 as int, np5 as int, tag@, m);
                    message_complete_from_sound(v@, pos as int, np5 as int, m);
                }
                Some((m, np5))
            },
            None => {
                proof {
                    assert forall|m: Message|
                        (m.wf() && pos + enc_message(m).len() <= v@.len() && v@.subrange(
                            pos as int,
                            pos + enc_message(m).len(),
                        ) == enc_message(m)) implies false by {
                        lemma_message_layout(v@, pos as int, m);
                        assert(json_safe(message_tag(m)));
                        assert(tag@ == message_tag(m));
                        assert(message_tag(m) == "ConnectNodeSend".spec_bytes());
                        match m {
                            Message::ConnectNodeSend(cm) => {
                            assert(message_inner(m) == enc_sdp_inner(cm.sdp@));
                            assert(json_safe(cm.sdp@));
                            assert(np4 as int == np3 + message_inner(m).len());
                                assert(lit_at(v@, np4 as int, "}"));
                            },
                            _ => {},
                        }
                    }
                }
                None
            },
        }
    } else if bytes_eq_lit(&tag, "ConnectNodeReport") {
        let (sdp, np4) = match parse_sdp_inner(v, np3) {
            Some(x) => x,
            None => {
                proof {
                    assert forall|m: Message|
                        (m.wf() && pos + enc_message(m).len() <= v@.len() && v@.subrange(
                            pos as int,
                            pos + enc_message(m).len(),
                        ) == enc_message(m)) implies false by {
                        lemma_message_layout(v@, pos as int, m);
                        assert(json_safe(message_tag(m)));
                        assert(tag@ == message_tag(m));
                        assert(message_tag(m) == "ConnectNodeReport".spec_bytes());
                        match m {
                            Message::ConnectNodeReport(cm) => {
                            assert(message_inner(m) == enc_sdp_inner(cm.sdp@));
                            assert(json_safe(cm.sdp@));
                                assert(np3 as int == pos + 1 + message_tag(m).len() + 2 + 1);
                            },
                            _ => {},
                        }
                    }
                }
                return None;
            },
        };
        match take_lit(v, np4, "}") {
            Some(np5) => {
                let m = Message::ConnectNodeReport(ConnectNodeReport { sdp });
                proof {
                    message_sound_stitch(v@, pos as int, np1 as int, np2 as int, np3 as int, np4 as int, np5 as int, tag@, m);
                    message_complete_from_sound(v@, pos as int, np5 as int, m);
                }
                Some((m, np5))
            },
            None => {
                proof {
                    assert forall|m: Message|
                        (m.wf() && pos + enc_message(m).len() <= v@.len() && v@.subrange(
                            pos as int,
                            pos + enc_message(m).len(),
                        ) == enc_message(m)) implies false by {
                        lemma_message_layout(v@, pos as int, m);
                        assert(json_safe(message_tag(m)));
                        assert(tag@ == message_tag(m));
                        assert(message_tag(m) == "ConnectNodeReport".spec_bytes());
                        match m {
                            Message::ConnectNodeReport(cm) => {
                            assert(message_inner(m) == enc_sdp_inner(cm.sdp@));
                            assert(json_safe(cm.sdp@));
                            assert(np4 as int == np3 + message_inner(m).len());
                                assert(lit_at(v@, np4 as int, "}"));
                            },
                            _ => {},
                        }
                    }
                }
                None
            },
        }
    } else if bytes_eq_lit(&tag, "JoinDHT") {
        let (idv, np4) = match parse_id_inner(v, np3) {
            Some(x) => x,
            None => {
                proof {
                    assert forall|m: Message|
                        (m.wf() && pos + enc_message(m).len() <= v@.len() && v@.subrange(
                            pos as int,
                            pos + enc_message(m).len(),
                        ) == enc_message(m)) implies false by {
                        lemma_message_layout(v@, pos as int, m);
                        assert(json_safe(message_tag(m)));
                        assert(tag@ == message_tag(m));
                        assert(message_tag(m) == "JoinDHT".spec_bytes());
                        match m {
                            Message::JoinDHT(cm) => {
                            assert(message_inner(m) == enc_id_inner(cm.id));
                                assert(np3 as int == pos + 1 + message_tag(m).len() + 2 + 1);
                            },
                            _ => {},
                        }
                    }
                }
                return None;
            },
        };
        match take_lit(v, np4, "}") {
            Some(np5) => {
                let m = Message::JoinDHT(JoinDHT { id: idv });
                proof {
                    message_sound_stitch(v@, pos as int, np1 as int, np2 as int, np3 as int, np4 as int, np5 as int, tag@, m);
                    message_complete_from_sound(v@, pos as int, np5 as int, m);
                }
                Some((m, np5))
            },
            None => {
                proof {
                    assert forall|m: Message|
                        (m.wf() && pos + enc_message(m).len() <= v@.len() && v@.subrange(
                            pos as int,
                            pos + enc_message(m).len(),
                        ) == enc_message(m)) implies false by {
                        lemma_message_layout(v@, pos as int, m);
                        assert(json_safe(message_tag(m)));
                        assert(tag@ == message_tag(m));
                        assert(message_tag(m) == "JoinDHT".spec_bytes());
                        match m {
                            Message::JoinDHT(cm) => {
                            assert(message_inner(m) == enc_id_inner(cm.id));
                            assert(np4 as int == np3 + message_inner(m).len());
                                assert(lit_at(v@, np4 as int, "}"));
                            },
                            _ => {},
                        }
                    }
                }
                None
            },
        }
    } else if bytes_eq_lit(&tag, "LeaveDHT") {
        let (idv, np4) = match parse_id_inner(v, np3) {
            Some(x) => x,
            None => {
                proof {
                    assert forall|m: Message|
                        (m.wf() && pos + enc_message(m).len() <= v@.len() && v@.subrange(
                            pos as int,
                            pos + enc_message(m).len(),
                        ) == enc_message(m)) implies false by {
                        lemma_message_layout(v@, pos as int, m);
                        assert(json_safe(message_tag(m)));
                        assert(tag@ == message_tag(m));
                        assert(message_tag(m) == "LeaveDHT".spec_bytes());
                        match m {
                            Message::LeaveDHT(cm) => {
                            assert(message_inner(m) == enc_id_inner(cm.id));
                                assert(np3 as int == pos + 1 + message_tag(m).len() + 2 + 1);
                            },
                            _ => {},
                        }
                    }
                }
                return None;
            },
        };
        match take_lit(v, np4, "}") {
            Some(np5) => {
                let m = Message::LeaveDHT(LeaveDHT { id: idv });
                proof {
                    message_sound_stitch(v@, pos as int, np1 as int, np2 as int, np3 as int, np4 as int, np5 as int, tag@, m);
                    message_complete_from_sound(v@, pos as int, np5 as int, m);
                }
                Some((m, np5))
            },
            None => {
                proof {
                    assert forall|m: Message|
                        (m.wf() && pos + enc_message(m).len() <= v@.len() && v@.subrange(
                            pos as int,
                            pos + enc_message(m).len(),
                        ) == enc_message(m)) implies false by {
                        lemma_message_layout(v@, pos as int, m);
                        assert(json_safe(message_tag(m)));
                        assert(tag@ == message_tag(m));
                        assert(message_tag(m) == "LeaveDHT".spec_bytes());
                        match m {
                            Message::LeaveDHT(cm) => {
                            assert(message_inner(m) == enc_id_inner(cm.id));
                            assert(np4 as int == np3 + message_inner(m).len());
                                assert(lit_at(v@, np4 as int, "}"));
                            },
                            _ => {},
                        }
                    }
                }
                None
            },
        }
    } else {
        proof {
            assert forall|m: Message|
                (m.wf() && pos + enc_message(m).len() <= v@.len() && v@.subrange(
                    pos as int,
                    pos + enc_message(m).len(),
                ) == enc_message(m)) implies false by {
                lemma_message_layout(v@, pos as int, m);
                assert(json_safe(message_tag(m)));
                assert(tag@ == message_tag(m));
            }
        }
        None
    }
}

/// Stitch the five parsed regions of a body back into `enc_message(m)`.
proof fn message_sound_stitch(
    v: Seq<u8>,
    pos: int,
    np1: int,
    np2: int,
    np3: int,
    np4: int,
    np5: int,
    tag: Seq<u8>,
    m: Message,
)
    requires
        0 <= pos <= np1 <= np2 <= np3 <= np4 <= np5 <= v.len(),
        v.subrange(pos, np1) == "{".spec_bytes(),
        v.subrange(np1, np2) == json_string(tag),
        v.subrange(np2, np3) == ":".spec_bytes(),
        v.subrange(np3, np4) == message_inner(m),
        v.subrange(np4, np5) == "}".spec_bytes(),
        tag == message_tag(m),
    ensures
        v.subrange(pos, np5) == enc_message(m),
{
    lemma_subrange_stitch(v, np3, np4, np5);
    lemma_subrange_stitch(v, np2, np3, np5);
    lemma_subrange_stitch(v, np1, np2, np5);
    lemma_subrange_stitch(v, pos, np1, np5);
}

/// A region that is `enc_message(m)` accepts only `m`: the encoding is
/// injective, because each piece of it is.
proof fn message_complete_from_sound(v: Seq<u8>, pos: int, np: int, m: Message)
    requires
        0 <= pos <= np <= v.len(),
        v.subrange(pos, np) == enc_message(m),
        m.wf(),
    ensures
        forall|m2: Message|
            #![trigger enc_message(m2)]
            (m2.wf() && pos + enc_message(m2).len() <= v.len() && v.subrange(
                pos,
                pos + enc_message(m2).len(),
            ) == enc_message(m2)) ==> (same_message(m, m2) && np == pos + enc_message(m2).len()),
{
    lemma_tag_facts();
    lemma_punct_facts();
    lemma_inner_facts();
    lemma_message_layout(v, pos, m);
    assert forall|m2: Message|
        (m2.wf() && pos + enc_message(m2).len() <= v.len() && v.subrange(
            pos,
            pos + enc_message(m2).len(),
        ) == enc_message(m2)) implies (same_message(m, m2) && np == pos + enc_message(m2).len()) by {
        lemma_message_layout(v, pos, m2);
        // The two tag regions start at the same place; the shorter one is a
        // prefix of the other inside its quotes, so the lengths agree.
        let t1 = message_tag(m);
        let t2 = message_tag(m2);
        assert(v.subrange(pos + 1, pos + 1 + t1.len() + 2) == json_string(t1));
        assert(v.subrange(pos + 1, pos + 1 + t2.len() + 2) == json_string(t2));
        assert(t1 == t2) by {
            if t1.len() < t2.len() {
                assert(v[pos + 1 + t1.len() + 1] == json_string(t1)[t1.len() as int + 1]);
                assert(v[pos + 1 + t1.len() + 1] == json_string(t2)[t1.len() as int + 1]);
                assert(json_string(t1)[t1.len() as int + 1] == 34u8);
                assert(json_string(t2)[t1.len() as int + 1] == t2[t1.len() as int]);
                assert(json_safe(t2));
            } else if t2.len() < t1.len() {
                assert(v[pos + 1 + t2.len() + 1] == json_string(t2)[t2.len() as int + 1]);
                assert(v[pos + 1 + t2.len() + 1] == json_string(t1)[t2.len() as int + 1]);
                assert(json_string(t2)[t2.len() as int + 1] == 34u8);
                assert(json_string(t1)[t2.len() as int + 1] == t1[t2.len() as int]);
                assert(json_safe(t1));
            } else {
                assert forall|j: int| 0 <= j < t1.len() implies t1[j] == t2[j] by {
                    assert(json_string(t1)[j + 1] == t1[j]);
                    assert(json_string(t2)[j + 1] == t2[j]);
                    assert(v[pos + 1 + j + 1] == json_string(t1)[j + 1]);
                    assert(v[pos + 1 + j + 1] == json_string(t2)[j + 1]);
                }
                assert(t1 =~= t2);
            }
        }
        // Same tag, same variant; the inner regions coincide, so the fields
        // coincide.
        let qi = pos + 1 + t1.len() + 2 + 1;
        message_same_variant(m, m2);
        let i1 = message_inner(m);
        let i2 = message_inner(m2);
        assert(v.subrange(qi, qi + i1.len()) == i1);
        assert(v.subrange(qi, qi + i2.len()) == i2);
        message_inner_match(v, qi, m, m2);
        assert(np == pos + enc_message(m).len());
    }
}

/// Bodies with the same tag are the same variant.
proof fn message_same_variant(m: Message, m2: Message)
    requires
        message_tag(m) == message_tag(m2),
    ensures
        m is ConnectNodeSend <==> m2 is ConnectNodeSend,
        m is ConnectNodeReport <==> m2 is ConnectNodeReport,
        m is JoinDHT <==> m2 is JoinDHT,
        m is LeaveDHT <==> m2 is LeaveDHT,
{
    lemma_tag_facts();
}

/// Two inner objects of the same variant written at the same place hold the
/// same field, so the bodies are equal.
proof fn message_inner_match(v: Seq<u8>, qi: int, m: Message, m2: Message)
    requires
        0 <= qi,
        m is ConnectNodeSend <==> m2 is ConnectNodeSend,
        m is ConnectNodeReport <==> m2 is ConnectNodeReport,
        m is JoinDHT <==> m2 is JoinDHT,
        m is LeaveDHT <==> m2 is LeaveDHT,
        m.wf(),
        m2.wf(),
        qi + message_inner(m).len() <= v.len(),
        qi + message_inner(m2).len() <= v.len(),
        v.subrange(qi, qi + message_inner(m).len()) == message_inner(m),
        v.subrange(qi, qi + message_inner(m2).len()) == message_inner(m2),
    ensures
        same_message(m, m2),
        message_inner(m2).len() == message_inner(m).len(),
{
    lemma_punct_facts();
    lemma_inner_facts();
    match (m, m2) {
        (Message::ConnectNodeSend(a), Message::ConnectNodeSend(b)) => {
            sdp_inner_match(v, qi, a.sdp@, b.sdp@);
        },
        (Message::ConnectNodeReport(a), Message::ConnectNodeReport(b)) => {
            sdp_inner_match(v, qi, a.sdp@, b.sdp@);
        },
        (Message::JoinDHT(a), Message::JoinDHT(b)) => {
            id_inner_match(v, qi, a.id, b.id);
        },
        (Message::LeaveDHT(a), Message::LeaveDHT(b)) => {
            id_inner_match(v, qi, a.id, b.id);
        },
        _ => {
            assert(false);
        },
    }
}

/// Two sdp objects written at the same place hold the same string.
proof fn sdp_inner_match(v: Seq<u8>, qi: int, s1: Seq<u8>, s2: Seq<u8>)
    requires
        0 <= qi,
        json_safe(s1),
        json_safe(s2),
        qi + enc_sdp_inner(s1).len() <= v.len(),
        qi + enc_sdp_inner(s2).len() <= v.len(),
        v.subrange(qi, qi + enc_sdp_inner(s1).len()) == enc_sdp_inner(s1),
        v.subrange(qi, qi + enc_sdp_inner(s2).len()) == enc_sdp_inner(s2),
    ensures
        s1 == s2,
{
    lemma_punct_facts();
    lemma_inner_facts();
    lemma_split_at(
        v,
        qi,
        qi + enc_sdp_inner(s1).len(),
        "{\"sdp\":".spec_bytes(),
        json_string(s1) + "}".spec_bytes(),
    );
    lemma_split_at(v, qi + 7, qi + enc_sdp_inner(s1).len(), json_string(s1), "}".spec_bytes());
    lemma_split_at(
        v,
        qi,
        qi + enc_sdp_inner(s2).len(),
        "{\"sdp\":".spec_bytes(),
        json_string(s2) + "}".spec_bytes(),
    );
    lemma_split_at(v, qi + 7, qi + enc_sdp_inner(s2).len(), json_string(s2), "}".spec_bytes());
    assert(s1 == s2) by {
        if s1.len() < s2.len() {
            assert(v[qi + 7 + s1.len() + 1] == json_string(s1)[s1.len() as int + 1]);
            assert(v[qi + 7 + s1.len() + 1] == json_string(s2)[s1.len() as int + 1]);
            assert(json_string(s2)[s1.len() as int + 1] == s2[s1.len() as int]);
        } else if s2.len() < s1.len() {
            assert(v[qi + 7 + s2.len() + 1] == json_string(s2)[s2.len() as int + 1]);
            assert(v[qi + 7 + s2.len() + 1] == json_string(s1)[s2.len() as int + 1]);
            assert(json_string(s1)[s2.len() as int + 1] == s1[s2.len() as int]);
        } else {
            assert forall|j: int| 0 <= j < s1.len() implies s1[j] == s2[j] by {
                assert(json_string(s1)[j + 1] == s1[j]);
                assert(json_string(s2)[j + 1] == s2[j]);
                assert(v[qi + 7 + j + 1] == json_string(s1)[j + 1]);
                assert(v[qi + 7 + j + 1] == json_string(s2)[j + 1]);
            }
            assert(s1 =~= s2);
        }
    }
}

/// Two id objects written at the same place hold the same DID.
proof fn id_inner_match(v: Seq<u8>, qi: int, d1: Did, d2: Did)
    requires
        0 <= qi,
        qi + enc_id_inner(d1).len() <= v.len(),
        qi + enc_id_inner(d2).len() <= v.len(),
        v.subrange(qi, qi + enc_id_inner(d1).len()) == enc_id_inner(d1),
        v.subrange(qi, qi + enc_id_inner(d2).len()) == enc_id_inner(d2),
    ensures
        d1 == d2,
{
    lemma_punct_facts();
    lemma_inner_facts();
    lemma_split_at(
        v,
        qi,
        qi + enc_id_inner(d1).len(),
        "{\"id\":".spec_bytes(),
        did_json(d1) + "}".spec_bytes(),
    );
    lemma_split_at(v, qi + 6, qi + enc_id_inner(d1).len(), did_json(d1), "}".spec_bytes());
    lemma_split_at(
        v,
        qi,
        qi + enc_id_inner(d2).len(),
        "{\"id\":".spec_bytes(),
        did_json(d2) + "}".spec_bytes(),
    );
    lemma_split_at(v, qi + 6, qi + enc_id_inner(d2).len(), did_json(d2), "}".spec_bytes());
    crate::wire::lemma_did_json_injective(d1, d2);
}



/// Read the destination field and closing brace of an envelope: accepts
/// exactly `enc_env_dest(dest)`.
fn parse_env_dest(v: &Vec<u8>, pos: usize) -> (r: Option<(Did, usize)>)
    ensures
        (match r {
            Some((d, np)) => pos <= np <= v@.len() && v@.subrange(pos as int, np as int)
                == enc_env_dest(d),
            None => true,
        }),
        forall|d: Did|
            #![trigger enc_env_dest(d)]
            (pos + enc_env_dest(d).len() <= v@.len() && v@.subrange(
                pos as int,
                pos + enc_env_dest(d).len(),
            ) == enc_env_dest(d)) ==> r == Some((d, (pos + enc_env_dest(d).len()) as usize)),
{
    let np1 = match take_lit(v, pos, ",\"destination\":") {
        Some(x) => x,
        None => {
            proof {
                assert forall|d: Did|
                    (pos + enc_env_dest(d).len() <= v@.len() && v@.subrange(
                        pos as int,
                        pos + enc_env_dest(d).len(),
                    ) == enc_env_dest(d)) implies false by {
                    lemma_split_at(
                        v@,
                        pos as int,
                        pos + enc_env_dest(d).len(),
                        ",\"destination\":".spec_bytes(),
                        did_json(d) + "}".spec_bytes(),
                    );
                }
            }
            return None;
        },
    };
    let (d, np2) = match parse_did(v, np1) {
        Some(x) => x,
        None => {
            proof {
                assert forall|d: Did|
                    (pos + enc_env_dest(d).len() <= v@.len() && v@.subrange(
                        pos as int,
                        pos + enc_env_dest(d).len(),
                    ) == enc_env_dest(d)) implies false by {
                    let qe = pos + enc_env_dest(d).len();
                    lemma_split_at(
                        v@,
                        pos as int,
                        qe,
                        ",\"destination\":".spec_bytes(),
                        did_json(d) + "}".spec_bytes(),
                    );
                    lemma_split_at(v@, np1 as int, qe, did_json(d), "}".spec_bytes());
                }
            }
            return None;
        },
    };
    match take_lit(v, np2, "}") {
        Some(np3) => {
            proof {
                lemma_subrange_stitch(v@, np1 as int, np2 as int, np3 as int);
                lemma_subrange_stitch(v@, pos as int, np1 as int, np3 as int);
                assert(v@.subrange(pos as int, np3 as int) == enc_env_dest(d));
                assert forall|d2: Did|
                    (pos + enc_env_dest(d2).len() <= v@.len() && v@.subrange(
                        pos as int,
                        pos + enc_env_dest(d2).len(),
                    ) == enc_env_dest(d2)) implies Some((d, np3)) == Some((
                    d2,
                    (pos + enc_env_dest(d2).len()) as usize,
                )) by {
                    let qe = pos + enc_env_dest(d2).len();
                    lemma_split_at(
                        v@,
                        pos as int,
                        qe,
                        ",\"destination\":".spec_bytes(),
                        did_json(d2) + "}".spec_bytes(),
                    );
                    lemma_split_at(v@, np1 as int, qe, did_json(d2), "}".spec_bytes());
                }
            }
            Some((d, np3))
        },
        None => {
            proof {
                assert forall|d2: Did|
                    (pos + enc_env_dest(d2).len() <= v@.len() && v@.subrange(
                        pos as int,
                        pos + enc_env_dest(d2).len(),
                    ) == enc_env_dest(d2)) implies false by {
                    let qe = pos + enc_env_dest(d2).len();
                    lemma_split_at(
                        v@,
                        pos as int,
                        qe,
                        ",\"destination\":".spec_bytes(),
                        did_json(d2) + "}".spec_bytes(),
                    );
                    lemma_split_at(v@, np1 as int, qe, did_json(d2), "}".spec_bytes());
                    assert(d == d2);
                    assert(lit_at(v@, np2 as int, "}"));
                }
            }
            None
        },
    }
}

/// Read the next-hop field and everything after it: accepts exactly
/// `enc_env_hop(nh, dest)`.
fn parse_env_hop(v: &Vec<u8>, pos: usize) -> (r: Option<((Option<Did>, Did), usize)>)
    ensures
        (match r {
            Some(((nh, d), np)) => pos <= np <= v@.len() && v@.subrange(pos as int, np as int)
                == enc_env_hop(nh, d),
            None => true,
        }),
        forall|nh: Option<Did>, d: Did|
            #![trigger enc_env_hop(nh, d)]
            (pos + enc_env_hop(nh, d).len() <= v@.len() && v@.subrange(
                pos as int,
                pos + enc_env_hop(nh, d).len(),
            ) == enc_env_hop(nh, d)) ==> r == Some(((nh, d), (pos + enc_env_hop(nh, d).len()) as usize)),
{
    let np1 = match take_lit(v, pos, ",\"next_hop\":") {
        Some(x) => x,
        None => {
            proof {
                assert forall|nh: Option<Did>, d: Did|
                    (pos + enc_env_hop(nh, d).len() <= v@.len() && v@.subrange(
                        pos as int,
                        pos + enc_env_hop(nh, d).len(),
                    ) == enc_env_hop(nh, d)) implies false by {
                    lemma_split_at(
                        v@,
                        pos as int,
                        pos + enc_env_hop(nh, d).len(),
                        ",\"next_hop\":".spec_bytes(),
                        enc_opt_did(nh) + enc_env_dest(d),
                    );
                }
            }
            return None;
        },
    };
    let (nh, np2) = match parse_opt_did(v, np1) {
        Some(x) => x,
        None => {
            proof {
                assert forall|nh: Option<Did>, d: Did|
                    (pos + enc_env_hop(nh, d).len() <= v@.len() && v@.subrange(
                        pos as int,
                        pos + enc_env_hop(nh, d).len(),
                    ) == enc_env_hop(nh, d)) implies false by {
                    let qe = pos + enc_env_hop(nh, d).len();
                    lemma_split_at(
                        v@,
                        pos as int,
                        qe,
                        ",\"next_hop\":".spec_bytes(),
                        enc_opt_did(nh) + enc_env_dest(d),
                    );
                    lemma_split_at(v@, np1 as int, qe, enc_opt_did(nh), enc_env_dest(d));
                }
            }
            return None;
        },
    };
    match parse_env_dest(v, np2) {
        Some((d, np3)) => {
            proof {
                lemma_subrange_stitch(v@, np1 as int, np2 as int, np3 as int);
                lemma_subrange_stitch(v@, pos as int, np1 as int, np3 as int);
                assert(v@.subrange(pos as int, np3 as int) == enc_env_hop(nh, d));
                assert forall|nh2: Option<Did>, d2: Did|
                    (pos + enc_env_hop(nh2, d2).len() <= v@.len() && v@.subrange(
                        pos as int,
                        pos + enc_env_hop(nh2, d2).len(),
                    ) == enc_env_hop(nh2, d2)) implies Some(((nh, d), np3)) == Some((
                    (nh2, d2),
                    (pos + enc_env_hop(nh2, d2).len()) as usize,
                )) by {
                    let qe = pos + enc_env_hop(nh2, d2).len();
                    lemma_split_at(
                        v@,
                        pos as int,
                        qe,
                        ",\"next_hop\":".spec_bytes(),
                        enc_opt_did(nh2) + enc_env_dest(d2),
                    );
                    lemma_split_at(v@, np1 as int, qe, enc_opt_did(nh2), enc_env_dest(d2));
                    assert(nh == nh2);
                }
            }
            Some(((nh, d), np3))
        },
        None => {
            proof {
                assert forall|nh2: Option<Did>, d2: Did|
                    (pos + enc_env_hop(nh2, d2).len() <= v@.len() && v@.subrange(
                        pos as int,
                        pos + enc_env_hop(nh2, d2).len(),
                    ) == enc_env_hop(nh2, d2)) implies false by {
                    let qe = pos + enc_env_hop(nh2, d2).len();
                    lemma_split_at(
                        v@,
                        pos as int,
                        qe,
                        ",\"next_hop\":".spec_bytes(),
                        enc_opt_did(nh2) + enc_env_dest(d2),
                    );
                    lemma_split_at(v@, np1 as int, qe, enc_opt_did(nh2), enc_env_dest(d2));
                    assert(nh == nh2);
                }
            }
            None
        },
    }
}

/// Read the cursor field and everything after it: accepts exactly
/// `enc_env_cursor(c, nh, dest)`.
fn parse_env_cursor(v: &Vec<u8>, pos: usize) -> (r: Option<((usize, Option<Did>, Did), usize)>)
    ensures
        (match r {
            Some(((c, nh, d), np)) => pos <= np <= v@.len() && v@.subrange(pos as int, np as int)
                == enc_env_cursor(c, nh, d),
            None => true,
        }),
        forall|c: usize, nh: Option<Did>, d: Did|
            #![trigger enc_env_cursor(c, nh, d)]
            (pos + enc_env_cursor(c, nh, d).len() <= v@.len() && v@.subrange(
                pos as int,
                pos + enc_env_cursor(c, nh, d).len(),
            ) == enc_env_cursor(c, nh, d)) ==> r == Some((
                (c, nh, d),
                (pos + enc_env_cursor(c, nh, d).len()) as usize,
            )),
{
    proof {
        lemma_key_facts();
    }
    let np1 = match take_lit(v, pos, ",\"path_end_cursor\":") {
        Some(x) => x,
        None => {
            proof {
                assert forall|c: usize, nh: Option<Did>, d: Did|
                    (pos + enc_env_cursor(c, nh, d).len() <= v@.len() && v@.subrange(
                        pos as int,
                        pos + enc_env_cursor(c, nh, d).len(),
                    ) == enc_env_cursor(c, nh, d)) implies false by {
                    lemma_split_at(
                        v@,
                        pos as int,
                        pos + enc_env_cursor(c, nh, d).len(),
                        ",\"path_end_cursor\":".spec_bytes(),
                        dec_u64(c as int) + enc_env_hop(nh, d),
                    );
                }
            }
            return None;
        },
    };
    let (cu, np2) = match parse_u64(v, np1) {
        Some(x) => x,
        None => {
            proof {
                assert forall|c: usize, nh: Option<Did>, d: Did|
                    (pos + enc_env_cursor(c, nh, d).len() <= v@.len() && v@.subrange(
                        pos as int,
                        pos + enc_env_cursor(c, nh, d).len(),
                    ) == enc_env_cursor(c, nh, d)) implies false by {
                    let qe = pos + enc_env_cursor(c, nh, d).len();
                    lemma_split_at(
                        v@,
                        pos as int,
                        qe,
                        ",\"path_end_cursor\":".spec_bytes(),
                        dec_u64(c as int) + enc_env_hop(nh, d),
                    );
                    lemma_split_at(v@, np1 as int, qe, dec_u64(c as int), enc_env_hop(nh, d));
                    assert(dec_u64((c as u64) as int) == dec_u64(c as int));
                    assert(v@[np1 + dec_u64(c as int).len()] == enc_env_hop(nh, d)[0]);
                    assert(enc_env_hop(nh, d)[0] == 44u8);
                }
            }
            return None;
        },
    };
    if cu > (usize::MAX as u64) {
        proof {
            assert forall|c: usize, nh: Option<Did>, d: Did|
                (pos + enc_env_cursor(c, nh, d).len() <= v@.len() && v@.subrange(
                    pos as int,
                    pos + enc_env_cursor(c, nh, d).len(),
                ) == enc_env_cursor(c, nh, d)) implies false by {
                let qe = pos + enc_env_cursor(c, nh, d).len();
                lemma_split_at(
                    v@,
                    pos as int,
                    qe,
                    ",\"path_end_cursor\":".spec_bytes(),
                    dec_u64(c as int) + enc_env_hop(nh, d),
                );
                lemma_split_at(v@, np1 as int, qe, dec_u64(c as int), enc_env_hop(nh, d));
                assert(dec_u64((c as u64) as int) == dec_u64(c as int));
                assert(v@[np1 + dec_u64(c as int).len()] == enc_env_hop(nh, d)[0]);
                assert(enc_env_hop(nh, d)[0] == 44u8);
                assert(cu == c as u64);
            }
        }
        return None;
    }
    match parse_env_hop(v, np2) {
        Some(((nh, d), np3)) => {
            proof {
                lemma_subrange_stitch(v@, np1 as int, np2 as int, np3 as int);
                lemma_subrange_stitch(v@, pos as int, np1 as int, np3 as int);
                assert(dec_u64((cu as usize) as int) == dec_u64(cu as int));
                assert(v@.subrange(pos as int, np3 as int) == enc_env_cursor(cu as usize, nh, d));
                assert forall|c2: usize, nh2: Option<Did>, d2: Did|
                    (pos + enc_env_cursor(c2, nh2, d2).len() <= v@.len() && v@.subrange(
                        pos as int,
                        pos + enc_env_cursor(c2, nh2, d2).len(),
                    ) == enc_env_cursor(c2, nh2, d2)) implies Some(((cu as usize, nh, d), np3))
                    == Some(((c2, nh2, d2), (pos + enc_env_cursor(c2, nh2, d2).len()) as usize)) by {
                    let qe = pos + enc_env_cursor(c2, nh2, d2).len();
                    lemma_split_at(
                        v@,
                        pos as int,
                        qe,
                        ",\"path_end_cursor\":".spec_bytes(),
                        dec_u64(c2 as int) + enc_env_hop(nh2, d2),
                    );
                    lemma_split_at(v@, np1 as int, qe, dec_u64(c2 as int), enc_env_hop(nh2, d2));
                    assert(dec_u64((c2 as u64) as int) == dec_u64(c2 as int));
                    assert(v@[np1 + dec_u64(c2 as int).len()] == enc_env_hop(nh2, d2)[0]);
                    assert(enc_env_hop(nh2, d2)[0] == 44u8);
                    assert(cu == c2 as u64);
                }
            }
            Some(((cu as usize, nh, d), np3))
        },
        None => {
            proof {
                assert forall|c2: usize, nh2: Option<Did>, d2: Did|
                    (pos + enc_env_cursor(c2, nh2, d2).len() <= v@.len() && v@.subrange(
                        pos as int,
                        pos + enc_env_cursor(c2, nh2, d2).len(),
                    ) == enc_env_cursor(c2, nh2, d2)) implies false by {
                    let qe = pos + enc_env_cursor(c2, nh2, d2).len();
                    lemma_split_at(
                        v@,
                        pos as int,
                        qe,
                        ",\"path_end_cursor\":".spec_bytes(),
                        dec_u64(c2 as int) + enc_env_hop(nh2, d2),
                    );
                    lemma_split_at(v@, np1 as int, qe, dec_u64(c2 as int), enc_env_hop(nh2, d2));
                    assert(dec_u64((c2 as u64) as int) == dec_u64(c2 as int));
                    assert(v@[np1 + dec_u64(c2 as int).len()] == enc_env_hop(nh2, d2)[0]);
                    assert(enc_env_hop(nh2, d2)[0] == 44u8);
                    assert(cu == c2 as u64);
                }
            }
            None
        },
    }
}

/// Read an envelope: accepts exactly `enc_envelope(e)`.
#[verifier::rlimit(100)]
fn parse_envelope(v: &Vec<u8>, pos: usize) -> (r: Option<(MessageRelay, usize)>)
    ensures
        (match r {
            Some((e, np)) => pos <= np <= v@.len() && v@.subrange(pos as int, np as int)
                == enc_envelope(e),
            None => true,
        }),
        forall|e: MessageRelay|
            #![trigger enc_envelope(e)]
            (pos + enc_envelope(e).len() <= v@.len() && v@.subrange(
                pos as int,
                pos + enc_envelope(e).len(),
            ) == enc_envelope(e)) ==> (match r {
                Some((re, np)) => same_envelope(re, e) && np == pos + enc_envelope(e).len(),
                None => false,
            }),
{
    let np1 = match take_lit(v, pos, "{\"method\":") {
        Some(x) => x,
        None => {
            proof {
                assert forall|e: MessageRelay|
                    (pos + enc_envelope(e).len() <= v@.len() && v@.subrange(
                        pos as int,
                        pos + enc_envelope(e).len(),
                    ) == enc_envelope(e)) implies false by {
                    envelope_splits(v@, pos as int, e);
                }
            }
            return None;
        },
    };
    let (method, np2) = match parse_method(v, np1) {
        Some(x) => x,
        None => {
            proof {
                assert forall|e: MessageRelay|
                    (pos + enc_envelope(e).len() <= v@.len() && v@.subrange(
                        pos as int,
                        pos + enc_envelope(e).len(),
                    ) == enc_envelope(e)) implies false by {
                    envelope_splits(v@, pos as int, e);
                }
            }
            return None;
        },
    };
    let np3 = match take_lit(v, np2, ",\"path\":") {
        Some(x) => x,
        None => {
            proof {
                assert forall|e: MessageRelay|
                    (pos + enc_envelope(e).len() <= v@.len() && v@.subrange(
                        pos as int,
                        pos + enc_envelope(e).len(),
                    ) == enc_envelope(e)) implies false by {
                    envelope_splits(v@, pos as int, e);
                }
            }
            return None;
        },
    };
    let (path, np4) = match parse_path(v, np3) {
        Some(x) => x,
        None => {
            proof {
                assert forall|e: MessageRelay|
                    (pos + enc_envelope(e).len() <= v@.len() && v@.subrange(
                        pos as int,
                        pos + enc_envelope(e).len(),
                    ) == enc_envelope(e)) implies false by {
                    envelope_splits(v@, pos as int, e);
                }
            }
            return None;
        },
    };
    match parse_env_cursor(v, np4) {
        Some(((c, nh, dest), np5)) => {
            let re = MessageRelay { method, path, path_end_cursor: c, next_hop: nh, destination: dest };
            proof {
                lemma_subrange_stitch(v@, np3 as int, np4 as int, np5 as int);
                lemma_subrange_stitch(v@, np2 as int, np3 as int, np5 as int);
                lemma_subrange_stitch(v@, np1 as int, np2 as int, np5 as int);
                lemma_subrange_stitch(v@, pos as int, np1 as int, np5 as int);
                assert(v@.subrange(pos as int, np5 as int) == enc_envelope(re));
                assert forall|e: MessageRelay|
                    (pos + enc_envelope(e).len() <= v@.len() && v@.subrange(
                        pos as int,
                        pos + enc_envelope(e).len(),
                    ) == enc_envelope(e)) implies same_envelope(re, e) && np5 == pos
                    + enc_envelope(e).len() by {
                    envelope_splits(v@, pos as int, e);
                }
            }
            Some((re, np5))
        },
        None => {
            proof {
                assert forall|e: MessageRelay|
                    (pos + enc_envelope(e).len() <= v@.len() && v@.subrange(
                        pos as int,
                        pos + enc_envelope(e).len(),
                    ) == enc_envelope(e)) implies false by {
                    envelope_splits(v@, pos as int, e);
                }
            }
            None
        },
    }
}

/// Where the four leading pieces of an encoded envelope stand.
proof fn envelope_splits(v: Seq<u8>, pos: int, e: MessageRelay)
    requires
        0 <= pos,
        pos + enc_envelope(e).len() <= v.len(),
        v.subrange(pos, pos + enc_envelope(e).len()) == enc_envelope(e),
    ensures
        ({
            let q1 = pos + "{\"method\":".spec_bytes().len();
            let q2 = q1 + enc_method(e.method).len();
            let q3 = q2 + ",\"path\":".spec_bytes().len();
            let q4 = q3 + enc_path(e.path@).len();
            let q5 = q4 + enc_env_cursor(e.path_end_cursor, e.next_hop, e.destination).len();
            &&& q5 == pos + enc_envelope(e).len()
            &&& v.subrange(pos, q1) == "{\"method\":".spec_bytes()
            &&& v.subrange(q1, q2) == enc_method(e.method)
            &&& v.subrange(q2, q3) == ",\"path\":".spec_bytes()
            &&& v.subrange(q3, q4) == enc_path(e.path@)
            &&& v.subrange(q4, q5) == enc_env_cursor(e.path_end_cursor, e.next_hop, e.destination)
        }),
{
    let end = pos + enc_envelope(e).len();
    let cur = enc_env_cursor(e.path_end_cursor, e.next_hop, e.destination);
    lemma_split_at(
        v,
        pos,
        end,
        "{\"method\":".spec_bytes(),
        enc_method(e.method) + (",\"path\":".spec_bytes() + (enc_path(e.path@) + cur)),
    );
    let p1 = pos + "{\"method\":".spec_bytes().len();
    lemma_split_at(
        v,
        p1,
        end,
        enc_method(e.method),
        ",\"path\":".spec_bytes() + (enc_path(e.path@) + cur),
    );
    let p2 = p1 + enc_method(e.method).len();
    lemma_split_at(v, p2, end, ",\"path\":".spec_bytes(), enc_path(e.path@) + cur);
    let p3 = p2 + ",\"path\":".spec_bytes().len();
    lemma_split_at(v, p3, end, enc_path(e.path@), cur);
}


/// Read the destination-signature field and the closing brace: accepts
/// exactly `enc_pay_dsig(ds)`.
fn parse_pay_dsig(v: &Vec<u8>, pos: usize) -> (r: Option<(Option<u64>, usize)>)
    ensures
        (match r {
            Some((ds, np)) => pos <= np <= v@.len() && v@.subrange(pos as int, np as int)
                == enc_pay_dsig(ds),
            None => true,
        }),
        forall|ds: Option<u64>|
            #![trigger enc_pay_dsig(ds)]
            (pos + enc_pay_dsig(ds).len() <= v@.len() && v@.subrange(
                pos as int,
                pos + enc_pay_dsig(ds).len(),
            ) == enc_pay_dsig(ds)) ==> r == Some((ds, (pos + enc_pay_dsig(ds).len()) as usize)),
{
    proof {
        lemma_punct_facts();
    }
    let np1 = match take_lit(v, pos, ",\"destination_signature\":") {
        Some(x) => x,
        None => {
            proof {
                assert forall|ds: Option<u64>|
                    (pos + enc_pay_dsig(ds).len() <= v@.len() && v@.subrange(
                        pos as int,
                        pos + enc_pay_dsig(ds).len(),
                    ) == enc_pay_dsig(ds)) implies false by {
                    lemma_split_at(
                        v@,
                        pos as int,
                        pos + enc_pay_dsig(ds).len(),
                        ",\"destination_signature\":".spec_bytes(),
                        enc_opt_u64(ds) + "}".spec_bytes(),
                    );
                }
            }
            return None;
        },
    };
    let (ds, np2) = match parse_opt_u64(v, np1) {
        Some(x) => x,
        None => {
            proof {
                assert forall|ds: Option<u64>|
                    (pos + enc_pay_dsig(ds).len() <= v@.len() && v@.subrange(
                        pos as int,
                        pos + enc_pay_dsig(ds).len(),
                    ) == enc_pay_dsig(ds)) implies false by {
                    let qe = pos + enc_pay_dsig(ds).len();
                    lemma_split_at(
                        v@,
                        pos as int,
                        qe,
                        ",\"destination_signature\":".spec_bytes(),
                        enc_opt_u64(ds) + "}".spec_bytes(),
                    );
                    lemma_split_at(v@, np1 as int, qe, enc_opt_u64(ds), "}".spec_bytes());
                    assert(v@[np1 + enc_opt_u64(ds).len()] == "}".spec_bytes()[0]);
                }
            }
            return None;
        },
    };
    match take_lit(v, np2, "}") {
        Some(np3) => {
            proof {
                lemma_subrange_stitch(v@, np1 as int, np2 as int, np3 as int);
                lemma_subrange_stitch(v@, pos as int, np1 as int, np3 as int);
                assert(v@.subrange(pos as int, np3 as int) == enc_pay_dsig(ds));
                assert forall|ds2: Option<u64>|
                    (pos + enc_pay_dsig(ds2).len() <= v@.len() && v@.subrange(
                        pos as int,
                        pos + enc_pay_dsig(ds2).len(),
                    ) == enc_pay_dsig(ds2)) implies Some((ds, np3)) == Some((
                    ds2,
                    (pos + enc_pay_dsig(ds2).len()) as usize,
                )) by {
                    let qe = pos + enc_pay_dsig(ds2).len();
                    lemma_split_at(
                        v@,
                        pos as int,
                        qe,
                        ",\"destination_signature\":".spec_bytes(),
                        enc_opt_u64(ds2) + "}".spec_bytes(),
                    );
                    lemma_split_at(v@, np1 as int, qe, enc_opt_u64(ds2), "}".spec_bytes());
                    assert(v@[np1 + enc_opt_u64(ds2).len()] == "}".spec_bytes()[0]);
                    assert(ds == ds2);
                }
            }
            Some((ds, np3))
        },
        None => {
            proof {
                assert forall|ds2: Option<u64>|
                    (pos + enc_pay_dsig(ds2).len() <= v@.len() && v@.subrange(
                        pos as int,
                        pos + enc_pay_dsig(ds2).len(),
                    ) == enc_pay_dsig(ds2)) implies false by {
                    let qe = pos + enc_pay_dsig(ds2).len();
                    lemma_split_at(
                        v@,
                        pos as int,
                        qe,
                        ",\"destination_signature\":".spec_bytes(),
                        enc_opt_u64(ds2) + "}".spec_bytes(),
                    );
                    lemma_split_at(v@, np1 as int, qe, enc_opt_u64(ds2), "}".spec_bytes());
                    assert(v@[np1 + enc_opt_u64(ds2).len()] == "}".spec_bytes()[0]);
                    assert(ds == ds2);
                    assert(lit_at(v@, np2 as int, "}"));
                }
            }
            None
        },
    }
}

/// Read the origin-signature field and everything after it: accepts exactly
/// `enc_pay_osig(ARGS)`.
#[verifier::rlimit(100)]
#[verifier::spinoff_prover]
fn parse_pay_osig(v: &Vec<u8>, pos: usize) -> (r: Option<((u64, Option<u64>), usize)>)
    ensures
        (match r {
            Some(((n0, ds_r), np)) => pos <= np <= v@.len() && v@.subrange(pos as int, np as int)
                == enc_pay_osig(n0, ds_r),
            None => true,
        }),
        forall|sig: u64, ds: Option<u64>|
            #![trigger enc_pay_osig(sig, ds)]
            (pos + enc_pay_osig(sig, ds).len() <= v@.len() && v@.subrange(
                pos as int,
                pos + enc_pay_osig(sig, ds).len(),
            ) == enc_pay_osig(sig, ds)) ==> r == Some(((sig, ds), (pos + enc_pay_osig(sig, ds).len()) as usize)),
{
    proof {
        lemma_key_facts();
        lemma_punct_facts();
    }
    let np1 = match take_lit(v, pos, ",\"origin_signature\":") {
        Some(x) => x,
        None => {
            proof {
                assert forall|sig: u64, ds: Option<u64>|
                    (pos + enc_pay_osig(sig, ds).len() <= v@.len() && v@.subrange(
                        pos as int,
                        pos + enc_pay_osig(sig, ds).len(),
                    ) == enc_pay_osig(sig, ds)) implies false by {
                    lemma_split_at(
                        v@,
                        pos as int,
                        pos + enc_pay_osig(sig, ds).len(),
                        ",\"origin_signature\":".spec_bytes(),
                        dec_u64(sig as int) + enc_pay_dsig(ds),
                    );
                }
            }
            return None;
        },
    };
    let (n0, np2) = match parse_u64(v, np1) {
        Some(x) => x,
        None => {
            proof {
                assert forall|sig: u64, ds: Option<u64>|
                    (pos + enc_pay_osig(sig, ds).len() <= v@.len() && v@.subrange(
                        pos as int,
                        pos + enc_pay_osig(sig, ds).len(),
                    ) == enc_pay_osig(sig, ds)) implies false by {
                    let qe = pos + enc_pay_osig(sig, ds).len();
                    lemma_split_at(
                        v@,
                        pos as int,
                        qe,
                        ",\"origin_signature\":".spec_bytes(),
                        dec_u64(sig as int) + enc_pay_dsig(ds),
                    );
                    lemma_split_at(v@, np1 as int, qe, dec_u64(sig as int), enc_pay_dsig(ds));
                    assert(v@[np1 + dec_u64(sig as int).len()] == enc_pay_dsig(ds)[0]);
                    assert(enc_pay_dsig(ds)[0] == 44u8);
                }
            }
            return None;
        },
    };
    match parse_pay_dsig(v, np2) {
        Some((ds_r, np3)) => {
            proof {
                lemma_subrange_stitch(v@, np1 as int, np2 as int, np3 as int);
                lemma_subrange_stitch(v@, pos as int, np1 as int, np3 as int);
                assert(v@.subrange(pos as int, np3 as int) == enc_pay_osig(n0, ds_r));
                assert forall|sig2: u64, ds2: Option<u64>|
                    (pos + enc_pay_osig(sig2, ds2).len() <= v@.len() && v@.subrange(
                        pos as int,
                        pos + enc_pay_osig(sig2, ds2).len(),
                    ) == enc_pay_osig(sig2, ds2)) implies Some(((n0, ds_r), np3)) == Some((
                    (sig2, ds2),
                    (pos + enc_pay_osig(sig2, ds2).len()) as usize,
                )) by {
                    let qe = pos + enc_pay_osig(sig2, ds2).len();
                    lemma_split_at(
                        v@,
                        pos as int,
                        qe,
                        ",\"origin_signature\":".spec_bytes(),
                        dec_u64(sig2 as int) + enc_pay_dsig(ds2),
                    );
                    lemma_split_at(v@, np1 as int, qe, dec_u64(sig2 as int), enc_pay_dsig(ds2));
                    assert(v@[np1 + dec_u64(sig2 as int).len()] == enc_pay_dsig(ds2)[0]);
                    assert(enc_pay_dsig(ds2)[0] == 44u8);
                    assert(n0 == sig2);
                }
            }
            Some(((n0, ds_r), np3))
        },
        None => {
            proof {
                assert forall|sig2: u64, ds2: Option<u64>|
                    (pos + enc_pay_osig(sig2, ds2).len() <= v@.len() && v@.subrange(
                        pos as int,
                        pos + enc_pay_osig(sig2, ds2).len(),
                    ) == enc_pay_osig(sig2, ds2)) implies false by {
                    let qe = pos + enc_pay_osig(sig2, ds2).len();
                    lemma_split_at(
                        v@,
                        pos as int,
                        qe,
                        ",\"origin_signature\":".spec_bytes(),
                        dec_u64(sig2 as int) + enc_pay_dsig(ds2),
                    );
                    lemma_split_at(v@, np1 as int, qe, dec_u64(sig2 as int), enc_pay_dsig(ds2));
                    assert(v@[np1 + dec_u64(sig2 as int).len()] == enc_pay_dsig(ds2)[0]);
                    assert(enc_pay_dsig(ds2)[0] == 44u8);
                    assert(n0 == sig2);
                }
            }
            None
        },
    }
}

/// Read the ttl field and everything after it: accepts exactly
/// `enc_pay_ttl(ARGS)`.
#[verifier::rlimit(100)]
#[verifier::spinoff_prover]
fn parse_pay_ttl(v: &Vec<u8>, pos: usize) -> (r: Option<((u64, u64, Option<u64>), usize)>)
    ensures
        (match r {
            Some(((n0, sig_r, ds_r), np)) => pos <= np <= v@.len() && v@.subrange(pos as int, np as int)
                == enc_pay_ttl(n0, sig_r, ds_r),
            None => true,
        }),
        forall|ttl: u64, sig: u64, ds: Option<u64>|
            #![trigger enc_pay_ttl(ttl, sig, ds)]
            (pos + enc_pay_ttl(ttl, sig, ds).len() <= v@.len() && v@.subrange(
                pos as int,
                pos + enc_pay_ttl(ttl, sig, ds).len(),
            ) == enc_pay_ttl(ttl, sig, ds)) ==> r == Some(((ttl, sig, ds), (pos + enc_pay_ttl(ttl, sig, ds).len()) as usize)),
{
    proof {
        lemma_key_facts();
        lemma_punct_facts();
    }
    let np1 = match take_lit(v, pos, ",\"ttl_ms\":") {
        Some(x) => x,
        None => {
            proof {
                assert forall|ttl: u64, sig: u64, ds: Option<u64>|
                    (pos + enc_pay_ttl(ttl, sig, ds).len() <= v@.len() && v@.subrange(
                        pos as int,
                        pos + enc_pay_ttl(ttl, sig, ds).len(),
                    ) == enc_pay_ttl(ttl, sig, ds)) implies false by {
                    lemma_split_at(
                        v@,
                        pos as int,
                        pos + enc_pay_ttl(ttl, sig, ds).len(),
                        ",\"ttl_ms\":".spec_bytes(),
                        dec_u64(ttl as int) + enc_pay_osig(sig, ds),
                    );
                }
            }
            return None;
        },
    };
    let (n0, np2) = match parse_u64(v, np1) {
        Some(x) => x,
        None => {
            proof {
                assert forall|ttl: u64, sig: u64, ds: Option<u64>|
                    (pos + enc_pay_ttl(ttl, sig, ds).len() <= v@.len() && v@.subrange(
                        pos as int,
                        pos + enc_pay_ttl(ttl, sig, ds).len(),
                    ) == enc_pay_ttl(ttl, sig, ds)) implies false by {
                    let qe = pos + enc_pay_ttl(ttl, sig, ds).len();
                    lemma_split_at(
                        v@,
                        pos as int,
                        qe,
                        ",\"ttl_ms\":".spec_bytes(),
                        dec_u64(ttl as int) + enc_pay_osig(sig, ds),
                    );
                    lemma_split_at(v@, np1 as int, qe, dec_u64(ttl as int), enc_pay_osig(sig, ds));
                    assert(v@[np1 + dec_u64(ttl as int).len()] == enc_pay_osig(sig, ds)[0]);
                    assert(enc_pay_osig(sig, ds)[0] == 44u8);
                }
            }
            return None;
        },
    };
    match parse_pay_osig(v, np2) {
        Some(((sig_r, ds_r), np3)) => {
            proof {
                lemma_subrange_stitch(v@, np1 as int, np2 as int, np3 as int);
                lemma_subrange_stitch(v@, pos as int, np1 as int, np3 as int);
                assert(v@.subrange(pos as int, np3 as int) == enc_pay_ttl(n0, sig_r, ds_r));
                assert forall|ttl2: u64, sig2: u64, ds2: Option<u64>|
                    (pos + enc_pay_ttl(ttl2, sig2, ds2).len() <= v@.len() && v@.subrange(
                        pos as int,
                        pos + enc_pay_ttl(ttl2, sig2, ds2).len(),
                    ) == enc_pay_ttl(ttl2, sig2, ds2)) implies Some(((n0, sig_r, ds_r), np3)) == Some((
                    (ttl2, sig2, ds2),
                    (pos + enc_pay_ttl(ttl2, sig2, ds2).len()) as usize,
                )) by {
                    let qe = pos + enc_pay_ttl(ttl2, sig2, ds2).len();
                    lemma_split_at(
                        v@,
                        pos as int,
                        qe,
                        ",\"ttl_ms\":".spec_bytes(),
                        dec_u64(ttl2 as int) + enc_pay_osig(sig2, ds2),
                    );
                    lemma_split_at(v@, np1 as int, qe, dec_u64(ttl2 as int), enc_pay_osig(sig2, ds2));
                    assert(v@[np1 + dec_u64(ttl2 as int).len()] == enc_pay_osig(sig2, ds2)[0]);
                    assert(enc_pay_osig(sig2, ds2)[0] == 44u8);
                    assert(n0 == ttl2);
                }
            }
            Some(((n0, sig_r, ds_r), np3))
        },
        None => {
            proof {
                assert forall|ttl2: u64, sig2: u64, ds2: Option<u64>|
                    (pos + enc_pay_ttl(ttl2, sig2, ds2).len() <= v@.len() && v@.subrange(
                        pos as int,
                        pos + enc_pay_ttl(ttl2, sig2, ds2).len(),
                    ) == enc_pay_ttl(ttl2, sig2, ds2)) implies false by {
                    let qe = pos + enc_pay_ttl(ttl2, sig2, ds2).len();
                    lemma_split_at(
                        v@,
                        pos as int,
                        qe,
                        ",\"ttl_ms\":".spec_bytes(),
                        dec_u64(ttl2 as int) + enc_pay_osig(sig2, ds2),
                    );
                    lemma_split_at(v@, np1 as int, qe, dec_u64(ttl2 as int), enc_pay_osig(sig2, ds2));
                    assert(v@[np1 + dec_u64(ttl2 as int).len()] == enc_pay_osig(sig2, ds2)[0]);
                    assert(enc_pay_osig(sig2, ds2)[0] == 44u8);
                    assert(n0 == ttl2);
                }
            }
            None
        },
    }
}

/// Read the timestamp field and everything after it: accepts exactly
/// `enc_pay_ts(ARGS)`.
#[verifier::rlimit(100)]
#[verifier::spinoff_prover]
fn parse_pay_ts(v: &Vec<u8>, pos: usize) -> (r: Option<((u64, u64, u64, Option<u64>), usize)>)
    ensures
        (match r {
            Some(((n0, ttl_r, sig_r, ds_r), np)) => pos <= np <= v@.len() && v@.subrange(pos as int, np as int)
                == enc_pay_ts(n0, ttl_r, sig_r, ds_r),
            None => true,
        }),
        forall|ts: u64, ttl: u64, sig: u64, ds: Option<u64>|
            #![trigger enc_pay_ts(ts, ttl, sig, ds)]
            (pos + enc_pay_ts(ts, ttl, sig, ds).len() <= v@.len() && v@.subrange(
                pos as int,
                pos + enc_pay_ts(ts, ttl, sig, ds).len(),
            ) == enc_pay_ts(ts, ttl, sig, ds)) ==> r == Some(((ts, ttl, sig, ds), (pos + enc_pay_ts(ts, ttl, sig, ds).len()) as usize)),
{
    proof {
        lemma_key_facts();
        lemma_punct_facts();
    }
    let np1 = match take_lit(v, pos, ",\"timestamp_ms\":") {
        Some(x) => x,
        None => {
            proof {
                assert forall|ts: u64, ttl: u64, sig: u64, ds: Option<u64>|
                    (pos + enc_pay_ts(ts, ttl, sig, ds).len() <= v@.len() && v@.subrange(
                        pos as int,
                        pos + enc_pay_ts(ts, ttl, sig, ds).len(),
                    ) == enc_pay_ts(ts, ttl, sig, ds)) implies false by {
                    lemma_split_at(
                        v@,
                        pos as int,
                        pos + enc_pay_ts(ts, ttl, sig, ds).len(),
                        ",\"timestamp_ms\":".spec_bytes(),
                        dec_u64(ts as int) + enc_pay_ttl(ttl, sig, ds),
                    );
                }
            }
            return None;
        },
    };
    let (n0, np2) = match parse_u64(v, np1) {
        Some(x) => x,
        None => {
            proof {
                assert forall|ts: u64, ttl: u64, sig: u64, ds: Option<u64>|
                    (pos + enc_pay_ts(ts, ttl, sig, ds).len() <= v@.len() && v@.subrange(
                        pos as int,
                        pos + enc_pay_ts(ts, ttl, sig, ds).len(),
                    ) == enc_pay_ts(ts, ttl, sig, ds)) implies false by {
                    let qe = pos + enc_pay_ts(ts, ttl, sig, ds).len();
                    lemma_split_at(
                        v@,
                        pos as int,
                        qe,
                        ",\"timestamp_ms\":".spec_bytes(),
                        dec_u64(ts as int) + enc_pay_ttl(ttl, sig, ds),
                    );
                    lemma_split_at(v@, np1 as int, qe, dec_u64(ts as int), enc_pay_ttl(ttl, sig, ds));
                    assert(v@[np1 + dec_u64(ts as int).len()] == enc_pay_ttl(ttl, sig, ds)[0]);
                    assert(enc_pay_ttl(ttl, sig, ds)[0] == 44u8);
                }
            }
            return None;
        },
    };
    match parse_pay_ttl(v, np2) {
        Some(((ttl_r, sig_r, ds_r), np3)) => {
            proof {
                lemma_subrange_stitch(v@, np1 as int, np2 as int, np3 as int);
                lemma_subrange_stitch(v@, pos as int, np1 as int, np3 as int);
                assert(v@.subrange(pos as int, np3 as int) == enc_pay_ts(n0, ttl_r, sig_r, ds_r));
                assert forall|ts2: u64, ttl2: u64, sig2: u64, ds2: Option<u64>|
                    (pos + enc_pay_ts(ts2, ttl2, sig2, ds2).len() <= v@.len() && v@.subrange(
                        pos as int,
                        pos + enc_pay_ts(ts2, ttl2, sig2, ds2).len(),
                    ) == enc_pay_ts(ts2, ttl2, sig2, ds2)) implies Some(((n0, ttl_r, sig_r, ds_r), np3)) == Some((
                    (ts2, ttl2, sig2, ds2),
                    (pos + enc_pay_ts(ts2, ttl2, sig2, ds2).len()) as usize,
                )) by {
                    let qe = pos + enc_pay_ts(ts2, ttl2, sig2, ds2).len();
                    lemma_split_at(
                        v@,
                        pos as int,
                        qe,
                        ",\"timestamp_ms\":".spec_bytes(),
                        dec_u64(ts2 as int) + enc_pay_ttl(ttl2, sig2, ds2),
                    );
                    lemma_split_at(v@, np1 as int, qe, dec_u64(ts2 as int), enc_pay_ttl(ttl2, sig2, ds2));
                    assert(v@[np1 + dec_u64(ts2 as int).len()] == enc_pay_ttl(ttl2, sig2, ds2)[0]);
                    assert(enc_pay_ttl(ttl2, sig2, ds2)[0] == 44u8);
                    assert(n0 == ts2);
                }
            }
            Some(((n0, ttl_r, sig_r, ds_r), np3))
        },
        None => {
            proof {
                assert forall|ts2: u64, ttl2: u64, sig2: u64, ds2: Option<u64>|
                    (pos + enc_pay_ts(ts2, ttl2, sig2, ds2).len() <= v@.len() && v@.subrange(
                        pos as int,
                        pos + enc_pay_ts(ts2, ttl2, sig2, ds2).len(),
                    ) == enc_pay_ts(ts2, ttl2, sig2, ds2)) implies false by {
                    let qe = pos + enc_pay_ts(ts2, ttl2, sig2, ds2).len();
                    lemma_split_at(
                        v@,
                        pos as int,
                        qe,
                        ",\"timestamp_ms\":".spec_bytes(),
                        dec_u64(ts2 as int) + enc_pay_ttl(ttl2, sig2, ds2),
                    );
                    lemma_split_at(v@, np1 as int, qe, dec_u64(ts2 as int), enc_pay_ttl(ttl2, sig2, ds2));
                    assert(v@[np1 + dec_u64(ts2 as int).len()] == enc_pay_ttl(ttl2, sig2, ds2)[0]);
                    assert(enc_pay_ttl(ttl2, sig2, ds2)[0] == 44u8);
                    assert(n0 == ts2);
                }
            }
            None
        },
    }
}

/// Read the session-token field and everything after it: accepts exactly
/// `enc_pay_pk(ARGS)`.
#[verifier::rlimit(100)]
#[verifier::spinoff_prover]
fn parse_pay_pk(v: &Vec<u8>, pos: usize) -> (r: Option<((u64, u64, u64, u64, Option<u64>), usize)>)
    ensures
        (match r {
            Some(((n0, ts_r, ttl_r, sig_r, ds_r), np)) => pos <= np <= v@.len() && v@.subrange(pos as int, np as int)
                == enc_pay_pk(n0, ts_r, ttl_r, sig_r, ds_r),
            None => true,
        }),
        forall|pk: u64, ts: u64, ttl: u64, sig: u64, ds: Option<u64>|
            #![trigger enc_pay_pk(pk, ts, ttl, sig, ds)]
            (pos + enc_pay_pk(pk, ts, ttl, sig, ds).len() <= v@.len() && v@.subrange(
                pos as int,
                pos + enc_pay_pk(pk, ts, ttl, sig, ds).len(),
            ) == enc_pay_pk(pk, ts, ttl, sig, ds)) ==> r == Some(((pk, ts, ttl, sig, ds), (pos + enc_pay_pk(pk, ts, ttl, sig, ds).len()) as usize)),
{
    proof {
        lemma_key_facts();
        lemma_punct_facts();
    }
    let np1 = match take_lit(v, pos, ",\"session_pubkey\":") {
        Some(x) => x,
        None => {
            proof {
                assert forall|pk: u64, ts: u64, ttl: u64, sig: u64, ds: Option<u64>|
                    (pos + enc_pay_pk(pk, ts, ttl, sig, ds).len() <= v@.len() && v@.subrange(
                        pos as int,
                        pos + enc_pay_pk(pk, ts, ttl, sig, ds).len(),
                    ) == enc_pay_pk(pk, ts, ttl, sig, ds)) implies false by {
                    lemma_split_at(
                        v@,
                        pos as int,
                        pos + enc_pay_pk(pk, ts, ttl, sig, ds).len(),
                        ",\"session_pubkey\":".spec_bytes(),
                        dec_u64(pk as int) + enc_pay_ts(ts, ttl, sig, ds),
                    );
                }
            }
            return None;
        },
    };
    let (n0, np2) = match parse_u64(v, np1) {
        Some(x) => x,
        None => {
            proof {
                assert forall|pk: u64, ts: u64, ttl: u64, sig: u64, ds: Option<u64>|
                    (pos + enc_pay_pk(pk, ts, ttl, sig, ds).len() <= v@.len() && v@.subrange(
                        pos as int,
                        pos + enc_pay_pk(pk, ts, ttl, sig, ds).len(),
                    ) == enc_pay_pk(pk, ts, ttl, sig, ds)) implies false by {
                    let qe = pos + enc_pay_pk(pk, ts, ttl, sig, ds).len();
                    lemma_split_at(
                        v@,
                        pos as int,
                        qe,
                        ",\"session_pubkey\":".spec_bytes(),
                        dec_u64(pk as int) + enc_pay_ts(ts, ttl, sig, ds),
                    );
                    lemma_split_at(v@, np1 as int, qe, dec_u64(pk as int), enc_pay_ts(ts, ttl, sig, ds));
                    assert(v@[np1 + dec_u64(pk as int).len()] == enc_pay_ts(ts, ttl, sig, ds)[0]);
                    assert(enc_pay_ts(ts, ttl, sig, ds)[0] == 44u8);
                }
            }
            return None;
        },
    };
    match parse_pay_ts(v, np2) {
        Some(((ts_r, ttl_r, sig_r, ds_r), np3)) => {
            proof {
                lemma_subrange_stitch(v@, np1 as int, np2 as int, np3 as int);
                lemma_subrange_stitch(v@, pos as int, np1 as int, np3 as int);
                assert(v@.subrange(pos as int, np3 as int) == enc_pay_pk(n0, ts_r, ttl_r, sig_r, ds_r));
                assert forall|pk2: u64, ts2: u64, ttl2: u64, sig2: u64, ds2: Option<u64>|
                    (pos + enc_pay_pk(pk2, ts2, ttl2, sig2, ds2).len() <= v@.len() && v@.subrange(
                        pos as int,
                        pos + enc_pay_pk(pk2, ts2, ttl2, sig2, ds2).len(),
                    ) == enc_pay_pk(pk2, ts2, ttl2, sig2, ds2)) implies Some(((n0, ts_r, ttl_r, sig_r, ds_r), np3)) == Some((
                    (pk2, ts2, ttl2, sig2, ds2),
                    (pos + enc_pay_pk(pk2, ts2, ttl2, sig2, ds2).len()) as usize,
                )) by {
                    let qe = pos + enc_pay_pk(pk2, ts2, ttl2, sig2, ds2).len();
                    lemma_split_at(
                        v@,
                        pos as int,
                        qe,
                        ",\"session_pubkey\":".spec_bytes(),
                        dec_u64(pk2 as int) + enc_pay_ts(ts2, ttl2, sig2, ds2),
                    );
                    lemma_split_at(v@, np1 as int, qe, dec_u64(pk2 as int), enc_pay_ts(ts2, ttl2, sig2, ds2));
                    assert(v@[np1 + dec_u64(pk2 as int).len()] == enc_pay_ts(ts2, ttl2, sig2, ds2)[0]);
                    assert(enc_pay_ts(ts2, ttl2, sig2, ds2)[0] == 44u8);
                    assert(n0 == pk2);
                }
            }
            Some(((n0, ts_r, ttl_r, sig_r, ds_r), np3))
        },
        None => {
            proof {
                assert forall|pk2: u64, ts2: u64, ttl2: u64, sig2: u64, ds2: Option<u64>|
                    (pos + enc_pay_pk(pk2, ts2, ttl2, sig2, ds2).len() <= v@.len() && v@.subrange(
                        pos as int,
                        pos + enc_pay_pk(pk2, ts2, ttl2, sig2, ds2).len(),
                    ) == enc_pay_pk(pk2, ts2, ttl2, sig2, ds2)) implies false by {
                    let qe = pos + enc_pay_pk(pk2, ts2, ttl2, sig2, ds2).len();
                    lemma_split_at(
                        v@,
                        pos as int,
                        qe,
                        ",\"session_pubkey\":".spec_bytes(),
                        dec_u64(pk2 as int) + enc_pay_ts(ts2, ttl2, sig2, ds2),
                    );
                    lemma_split_at(v@, np1 as int, qe, dec_u64(pk2 as int), enc_pay_ts(ts2, ttl2, sig2, ds2));
                    assert(v@[np1 + dec_u64(pk2 as int).len()] == enc_pay_ts(ts2, ttl2, sig2, ds2)[0]);
                    assert(enc_pay_ts(ts2, ttl2, sig2, ds2)[0] == 44u8);
                    assert(n0 == pk2);
                }
            }
            None
        },
    }
}

/// Where the five leading pieces of an encoded payload stand.
proof fn payload_splits(v: Seq<u8>, p: MessagePayload)
    requires
        v == enc_payload(p),
    ensures
        ({
            let q1 = "{\"body\":".spec_bytes().len() as int;
            let q2 = q1 + enc_message(p.body).len();
            let q3 = q2 + ",\"envelope\":".spec_bytes().len();
            let q4 = q3 + enc_envelope(p.envelope).len();
            let q5 = q4 + enc_pay_pk(
                p.session_pubkey,
                p.timestamp_ms,
                p.ttl_ms,
                p.origin_signature,
                p.destination_signature,
            ).len();
            &&& q5 == v.len()
            &&& v.subrange(0, q1) == "{\"body\":".spec_bytes()
            &&& v.subrange(q1, q2) == enc_message(p.body)
            &&& v.subrange(q2, q3) == ",\"envelope\":".spec_bytes()
            &&& v.subrange(q3, q4) == enc_envelope(p.envelope)
            &&& v.subrange(q4, q5) == enc_pay_pk(
                p.session_pubkey,
                p.timestamp_ms,
                p.ttl_ms,
                p.origin_signature,
                p.destination_signature,
            )
        }),
{
    let end = enc_payload(p).len() as int;
    assert(v.subrange(0, end) =~= v);
    let tail = enc_pay_pk(
        p.session_pubkey,
        p.timestamp_ms,
        p.ttl_ms,
        p.origin_signature,
        p.destination_signature,
    );
    lemma_split_at(
        v,
        0,
        end,
        "{\"body\":".spec_bytes(),
        enc_message(p.body) + (",\"envelope\":".spec_bytes() + (enc_envelope(p.envelope) + tail)),
    );
    let p1 = "{\"body\":".spec_bytes().len() as int;
    lemma_split_at(
        v,
        p1,
        end,
        enc_message(p.body),
        ",\"envelope\":".spec_bytes() + (enc_envelope(p.envelope) + tail),
    );
    let p2 = p1 + enc_message(p.body).len();
    lemma_split_at(v, p2, end, ",\"envelope\":".spec_bytes(), enc_envelope(p.envelope) + tail);
    let p3 = p2 + ",\"envelope\":".spec_bytes().len();
    lemma_split_at(v, p3, end, enc_envelope(p.envelope), tail);
}

impl MessagePayload {
    /// Read back a payload from its canonical bytes. Returns the payload
    /// exactly when the input is the canonical encoding of one; anything
    /// else is rejected.
    #[verifier::rlimit(100)]
    pub fn decode(bytes: &Vec<u8>) -> (r: Result<MessagePayload, Error>)
        ensures
            (match r {
                Ok(q) => bytes@ == enc_payload(q) && q.wf(),
                Err(e) => e == Error::DecodeError,
            }),
            forall|p: MessagePayload|
                #![trigger enc_payload(p)]
                (p.wf() && bytes@ == enc_payload(p)) ==> (match r {
                    Ok(q) => same_payload(q, p),
                    Err(_) => false,
                }),
    {
        let np1 = match take_lit(bytes, 0, "{\"body\":") {
            Some(x) => x,
            None => {
                proof {
                    assert forall|p: MessagePayload| (p.wf() && bytes@ == enc_payload(p)) implies
                        false by {
                        payload_splits(bytes@, p);
                    }
                }
                return Err(Error::DecodeError);
            },
        };
        let (m, np2) = match parse_message(bytes, np1) {
            Some(x) => x,
            None => {
                proof {
                    assert forall|p: MessagePayload| (p.wf() && bytes@ == enc_payload(p)) implies
                        false by {
                        payload_splits(bytes@, p);
                    }
                }
                return Err(Error::DecodeError);
            },
        };
        let np3 = match take_lit(bytes, np2, ",\"envelope\":") {
            Some(x) => x,
            None => {
                proof {
                    assert forall|p: MessagePayload| (p.wf() && bytes@ == enc_payload(p)) implies
                        false by {
                        payload_splits(bytes@, p);
                    }
                }
                return Err(Error::DecodeError);
            },
        };
        let (env, np4) = match parse_envelope(bytes, np3) {
            Some(x) => x,
            None => {
                proof {
                    assert forall|p: MessagePayload| (p.wf() && bytes@ == enc_payload(p)) implies
                        false by {
                        payload_splits(bytes@, p);
                    }
                }
                return Err(Error::DecodeError);
            },
        };
        let ((pk, ts, ttl, sig, ds), np5) = match parse_pay_pk(bytes, np4) {
            Some(x) => x,
            None => {
                proof {
                    assert forall|p: MessagePayload| (p.wf() && bytes@ == enc_payload(p)) implies
                        false by {
                        payload_splits(bytes@, p);
                    }
                }
                return Err(Error::DecodeError);
            },
        };
        if np5 != bytes.len() {
            proof {
                assert forall|p: MessagePayload| (p.wf() && bytes@ == enc_payload(p)) implies
                    false by {
                    payload_splits(bytes@, p);
                }
            }
            return Err(Error::DecodeError);
        }
        let q = MessagePayload {
            body: m,
            envelope: env,
            session_pubkey: pk,
            timestamp_ms: ts,
            ttl_ms: ttl,
            origin_signature: sig,
            destination_signature: ds,
        };
        proof {
            lemma_subrange_stitch(bytes@, np3 as int, np4 as int, np5 as int);
            lemma_subrange_stitch(bytes@, np2 as int, np3 as int, np5 as int);
            lemma_subrange_stitch(bytes@, np1 as int, np2 as int, np5 as int);
            lemma_subrange_stitch(bytes@, 0, np1 as int, np5 as int);
            assert(bytes@.subrange(0, np5 as int) == enc_payload(q));
            assert(bytes@ =~= bytes@.subrange(0, np5 as int));
            assert forall|p: MessagePayload| (p.wf() && bytes@ == enc_payload(p)) implies
                same_payload(q, p) by {
                payload_splits(bytes@, p);
            }
        }
        Ok(q)
    }
}


} // verus!
