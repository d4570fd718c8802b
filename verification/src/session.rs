//! Session credentials and the tag that binds a payload to them.
//!
//! The cryptographic machinery itself lives outside the core: a session is
//! modelled as an opaque 64-bit token, and the "signature" the core checks
//! is a deterministic tag computed from the token over the payload's
//! canonical bytes. What the core owns is the binding — which bytes are
//! covered and when verification must fail — not the primitive.

use vstd::prelude::*;
use crate::did::Did;
use crate::errors::Error;

verus! {

/// How long a signed payload stays valid by default: three days.
pub const DEFAULT_SESSION_TTL_MS: u64 = 259200000;

/// A node's long-lived secret, from which its address is derived.
#[derive(Clone, Copy, Debug, PartialEq, Eq, Structural)]
pub struct SecretKey {
    /// The opaque token standing for the key material.
    pub key: u64,
}

/// The address bytes derived from a secret: the token's eight bytes,
/// most significant first, padded to twenty bytes on the left with zeros.
pub open spec fn addr_bytes(k: u64) -> Seq<u8> {
    Seq::new(
        20,
        |i: int|
            if i < 12 {
                0u8
            } else {
                ((k as int / addr_pow(19 - i)) % 256) as u8
            },
    )
}

/// Powers of 256 for picking one byte out of a 64-bit token.
pub open spec fn addr_pow(j: int) -> int {
    if j <= 0 {
        1
    } else if j == 1 {
        256
    } else if j == 2 {
        65536
    } else if j == 3 {
        16777216
    } else if j == 4 {
        4294967296
    } else if j == 5 {
        1099511627776
    } else if j == 6 {
        281474976710656
    } else {
        72057594037927936
    }
}

impl SecretKey {
    /// The DID this secret answers for.
    pub fn address(&self) -> (r: Did)
        ensures
            r.bytes() == addr_bytes(self.key),
    {
        let k = self.key;
        let mut arr: [u8; 20] = [0u8; 20];
        arr[12] = ((k / 72057594037927936u64) % 256) as u8;
        arr[13] = ((k / 281474976710656u64) % 256) as u8;
        arr[14] = ((k / 1099511627776u64) % 256) as u8;
        arr[15] = ((k / 4294967296u64) % 256) as u8;
        arr[16] = ((k / 16777216u64) % 256) as u8;
        arr[17] = ((k / 65536u64) % 256) as u8;
        arr[18] = ((k / 256u64) % 256) as u8;
        arr[19] = (k % 256) as u8;
        let d = Did(arr);
        proof {
            assert(d.bytes() =~= addr_bytes(k));
        }
        d
    }
}

/// Holds the session credential a swarm signs its payloads with.
#[derive(Clone, Copy, Debug, PartialEq, Eq, Structural)]
pub struct SessionManager {
    /// The opaque session token; doubles as the advertised public key.
    pub token: u64,
    /// Validity window of payloads signed under this session.
    pub ttl_ms: u64,
}

impl SessionManager {
    /// Open a session from a node secret, with the given validity window
    /// or the default of three days.
    pub fn new_with_seckey(key: &SecretKey, ttl: Option<u64>) -> (r: Result<SessionManager, Error>)
        ensures
            (match r {
                Ok(sm) => sm.token == key.key && sm.ttl_ms == (match ttl {
                    Some(t) => t,
                    None => DEFAULT_SESSION_TTL_MS,
                }),
                Err(_) => false,
            }),
    {
        Ok(
            SessionManager {
                token: key.key,
                ttl_ms: match ttl {
                    Some(t) => t,
                    None => DEFAULT_SESSION_TTL_MS,
                },
            },
        )
    }
}

/// One mixing step of the tag: multiply, add the next byte, both modulo
/// two to the sixty-fourth.
pub open spec fn tag_step(h: u64, b: u8) -> u64 {
    ((((h * 31) % 0x10000000000000000) + b) % 0x10000000000000000) as u64
}

/// The tag of `s` under the token `key`: a left-to-right fold of
/// `tag_step` starting from the token.
pub open spec fn sig_tag(key: u64, s: Seq<u8>) -> u64
    decreases s.len(),
{
    if s.len() == 0 {
        key
    } else {
        tag_step(sig_tag(key, s.drop_last()), s.last())
    }
}

/// Compute the tag of `bytes` under `key`.
pub fn compute_tag(key: u64, bytes: &Vec<u8>) -> (r: u64)
    ensures
        r == sig_tag(key, bytes@),
{
    let mut h: u64 = key;
    let mut i: usize = 0;
    while i < bytes.len()
        invariant
            i <= bytes@.len(),
            h == sig_tag(key, bytes@.take(i as int)),
        decreases bytes@.len() - i,
    {
        let b = bytes[i];
        h = h.wrapping_mul(31).wrapping_add(b as u64);
        proof {
            assert(bytes@.take(i + 1).drop_last() =~= bytes@.take(i as int));
            assert(bytes@.take(i + 1).last() == bytes@[i as int]);
        }
        i = i + 1;
    }
    proof {
        assert(bytes@.take(bytes@.len() as int) =~= bytes@);
    }
    h
}

} // verus!
