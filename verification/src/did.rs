//! Peer identities: a DID is a 20-byte address derived from a public key.

use vstd::prelude::*;

verus! {

/// A decentralized identifier: a 20-byte address that names one peer.
#[derive(Clone, Copy, Debug, PartialEq, Eq, Hash, PartialOrd, Ord)]
pub struct Did(pub [u8; 20]);

impl Did {
    /// The address bytes, most significant first.
    pub open spec fn bytes(self) -> Seq<u8> {
        self.0@
    }

    /// Build a DID from its 20 address bytes.
    pub fn from_bytes(bytes: [u8; 20]) -> (r: Did)
        ensures
            r.bytes() == bytes@,
    {
        Did(bytes)
    }

    /// Equality on addresses, usable from verified code.
    pub fn same(&self, other: &Did) -> (r: bool)
        ensures
            r == (*self == *other),
    {
        let mut i: usize = 0;
        while i < 20
            invariant
                i <= 20,
                forall|j: int| 0 <= j < i ==> self.0@[j] == other.0@[j],
            decreases 20 - i,
        {
            if self.0[i] != other.0[i] {
                return false;
            }
            i += 1;
        }
        proof {
            assert(self.0 =~= other.0);
        }
        true
    }
}

} // verus!
