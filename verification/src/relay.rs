//! The routing envelope carried by every message.
//!
//! A SEND envelope pushes each hop onto its path; a REPORT envelope walks the
//! same path backwards, tracking its progress with a cursor counted from the
//! tail of the path.

use vstd::prelude::*;
use crate::did::Did;
use crate::errors::Error;

verus! {

/// The two directions a message can travel in.
#[allow(non_camel_case_types)]
#[derive(Clone, Copy, Debug, PartialEq, Eq, Structural)]
pub enum RelayMethod {
    /// The message travels away from its origin, towards its destination.
    SEND,
    /// The message travels back along the recorded path, towards the origin.
    REPORT,
}

/// The routing state attached to a message.
#[derive(Clone, Debug, PartialEq)]
pub struct MessageRelay {
    /// SEND or REPORT.
    pub method: RelayMethod,
    /// A push-only record of the DIDs the message has passed through.
    pub path: Vec<Did>,
    /// Progress of a report, counted down from the tail of `path`:
    /// it is `path.len() - <index of current> - 1`, not an index.
    pub path_end_cursor: usize,
    /// The node that should handle the message next; `None` exactly at the
    /// end of the propagation.
    pub next_hop: Option<Did>,
    /// Where the message is going. Fixed for a report.
    pub destination: Did,
}

/// No two adjacent entries of the path are equal.
pub open spec fn no_adjacent_dup(path: Seq<Did>) -> bool {
    forall|i: int| #![trigger path[i]] 0 <= i && i + 1 < path.len() ==> path[i] != path[i + 1]
}

/// The element just before the one the cursor points at, if any:
/// `path[path.len() - 2 - cursor]`.
pub open spec fn path_prev_at(path: Seq<Did>, cursor: int) -> Option<Did> {
    if path.len() < cursor + 2 {
        None
    } else {
        Some(path[path.len() - 2 - cursor])
    }
}

/// Offset, counted from the `skip`-th element from the tail of `path`,
/// of the first match for `current` when scanning towards the head.
pub open spec fn find_from_tail(path: Seq<Did>, skip: int, current: Did) -> Option<int>
    decreases path.len() - skip,
{
    if skip < 0 || skip >= path.len() {
        None
    } else if path[path.len() - 1 - skip] == current {
        Some(0)
    } else {
        match find_from_tail(path, skip + 1, current) {
            Some(p) => Some(p + 1),
            None => None,
        }
    }
}

/// What `validate` reports for an envelope with these components.
pub open spec fn validate_result(method: RelayMethod, path: Seq<Did>, destination: Did) -> Result<
    (),
    Error,
> {
    if !no_adjacent_dup(path) {
        Err(Error::InvalidRelayPath)
    } else if method is REPORT && path[0] != destination {
        Err(Error::InvalidRelayDestination)
    } else {
        Ok(())
    }
}

/// The error, if any, that `relay` reports for an envelope with these
/// components when handled at `current` with the explicit hop `nh_arg`.
pub open spec fn relay_err(
    method: RelayMethod,
    path: Seq<Did>,
    cursor: int,
    next_hop: Option<Did>,
    destination: Did,
    current: Did,
    nh_arg: Option<Did>,
) -> Option<Error> {
    if validate_result(method, path, destination) is Err {
        Some(validate_result(method, path, destination).unwrap_err())
    } else if next_hop is Some && next_hop != Some(current) {
        Some(Error::InvalidNextHop)
    } else if method is REPORT && next_hop != Some(destination) && find_from_tail(
        path,
        cursor,
        current,
    ) is None && nh_arg is None {
        Some(Error::CannotInferNextHop)
    } else {
        None
    }
}

/// The cursor after a successful `relay` call on these components.
pub open spec fn relay_cursor(
    method: RelayMethod,
    path: Seq<Did>,
    cursor: int,
    next_hop: Option<Did>,
    destination: Did,
    current: Did,
) -> int {
    if method is SEND {
        cursor
    } else if next_hop == Some(destination) {
        path.len() - 1
    } else {
        match find_from_tail(path, cursor, current) {
            Some(p) => cursor + p,
            None => cursor,
        }
    }
}

/// The next hop after a successful `relay` call on these components.
pub open spec fn relay_next_hop(
    method: RelayMethod,
    path: Seq<Did>,
    cursor: int,
    next_hop: Option<Did>,
    destination: Did,
    current: Did,
    nh_arg: Option<Did>,
) -> Option<Did> {
    if method is SEND {
        nh_arg
    } else if next_hop == Some(destination) {
        None
    } else if nh_arg is Some {
        nh_arg
    } else {
        path_prev_at(path, relay_cursor(method, path, cursor, next_hop, destination, current))
    }
}

/// If the first `off` scanned elements do not match and the next one does,
/// the search finds exactly that offset.
proof fn lemma_find_characterization(path: Seq<Did>, skip: int, current: Did, off: int)
    requires
        0 <= skip,
        0 <= off,
        skip + off < path.len(),
        forall|j: int| #![trigger path[j]]
            path.len() - 1 - skip - off < j <= path.len() - 1 - skip ==> path[j] != current,
        path[path.len() - 1 - skip - off] == current,
    ensures
        find_from_tail(path, skip, current) == Some(off),
    decreases off,
{
    if off > 0 {
        assert(path[path.len() - 1 - skip] != current);
        lemma_find_characterization(path, skip + 1, current, off - 1);
    }
}

/// If no scanned element matches, the search finds nothing.
proof fn lemma_find_none(path: Seq<Did>, skip: int, current: Did)
    requires
        0 <= skip,
        forall|j: int| #![trigger path[j]]
            0 <= j <= path.len() - 1 - skip ==> path[j] != current,
    ensures
        find_from_tail(path, skip, current) is None,
    decreases path.len() - skip,
{
    if skip < path.len() {
        assert(path[path.len() - 1 - skip] != current);
        lemma_find_none(path, skip + 1, current);
    }
}

impl MessageRelay {
    /// Build an envelope from its parts; a missing cursor means zero.
    pub fn new(
        method: RelayMethod,
        path: Vec<Did>,
        path_end_cursor: Option<usize>,
        next_hop: Option<Did>,
        destination: Did,
    ) -> (r: MessageRelay)
        ensures
            r.method == method,
            r.path@ == path@,
            r.path_end_cursor == (match path_end_cursor {
                Some(c) => c,
                None => 0usize,
            }),
            r.next_hop == next_hop,
            r.destination == destination,
    {
        MessageRelay {
            method,
            path,
            path_end_cursor: match path_end_cursor {
                Some(c) => c,
                None => 0,
            },
            next_hop,
            destination,
        }
    }

    /// Reject a path with two adjacent equal DIDs, and a report whose
    /// destination is not the origin recorded at the head of its path.
    pub fn validate(&self) -> (r: Result<(), Error>)
        requires
            self.method is REPORT ==> self.path@.len() > 0,
        ensures
            r == validate_result(self.method, self.path@, self.destination),
    {
        let n = self.path.len();
        if n >= 1 {
            let mut i: usize = 0;
            while i < n - 1
                invariant
                    1 <= n,
                    n == self.path@.len(),
                    i <= n - 1,
                    forall|j: int| #![trigger self.path@[j]] 0 <= j < i ==> self.path@[j]
                        != self.path@[j + 1],
                decreases n - i,
            {
                if self.path[i].same(&self.path[i + 1]) {
                    assert(self.path@[i as int] == self.path@[i as int + 1]);
                    assert(!no_adjacent_dup(self.path@));
                    return Err(Error::InvalidRelayPath);
                }
                i += 1;
            }
        }
        assert(no_adjacent_dup(self.path@));
        if self.method == RelayMethod::REPORT {
            if !self.path[0].same(&self.destination) {
                return Err(Error::InvalidRelayDestination);
            }
        }
        Ok(())
    }

    /// Check the current handler against the envelope, then advance it:
    /// a SEND envelope records the hop and takes the explicit next hop; a
    /// REPORT envelope moves its cursor to the current handler and infers
    /// the next hop from the path when none is given.
    ///
    /// On success the cursor stays within the path (cursor bound), and a
    /// SEND path grows by exactly the one hop just handled.
    pub fn relay(&mut self, current: Did, next_hop: Option<Did>) -> (r: Result<(), Error>)
        requires
            old(self).method is REPORT ==> old(self).path@.len() > 0,
        ensures
            (match relay_err(
                old(self).method,
                old(self).path@,
                old(self).path_end_cursor as int,
                old(self).next_hop,
                old(self).destination,
                current,
                next_hop,
            ) {
                Some(e) => r == Err::<(), Error>(e) && *final(self) == *old(self),
                None => {
                    &&& r is Ok
                    &&& final(self).method == old(self).method
                    &&& final(self).destination == old(self).destination
                    &&& (old(self).method is SEND ==> final(self).path@ == old(self).path@.push(
                        current,
                    ) && final(self).path_end_cursor == old(self).path_end_cursor
                        && final(self).next_hop == next_hop)
                    &&& (old(self).method is REPORT ==> final(self).path@ == old(self).path@
                        && final(self).path_end_cursor as int == relay_cursor(
                        old(self).method,
                        old(self).path@,
                        old(self).path_end_cursor as int,
                        old(self).next_hop,
                        old(self).destination,
                        current,
                    ) && final(self).next_hop == relay_next_hop(
                        old(self).method,
                        old(self).path@,
                        old(self).path_end_cursor as int,
                        old(self).next_hop,
                        old(self).destination,
                        current,
                        next_hop,
                    ))
                },
            }),
            r is Ok && old(self).path_end_cursor < old(self).path@.len()
                ==> final(self).path_end_cursor < final(self).path@.len(),
    {
        match self.validate() {
            Ok(()) => {},
            Err(e) => {
                return Err(e);
            },
        }

        let current_matches = match &self.next_hop {
            Some(h) => h.same(&current),
            None => true,
        };
        if !current_matches {
            return Err(Error::InvalidNextHop);
        }

        if self.method == RelayMethod::SEND {
            self.path.push(current);
            self.next_hop = next_hop;
            return Ok(());
        }

        // REPORT from here on.
        let is_final = match &self.next_hop {
            Some(h) => h.same(&self.destination),
            None => false,
        };
        if is_final {
            self.path_end_cursor = self.path.len() - 1;
            self.next_hop = None;
            return Ok(());
        }

        let n = self.path.len();
        let skip = self.path_end_cursor;
        let mut pos: Option<usize> = None;
        if skip < n {
            let mut off: usize = 0;
            while off < n - skip && pos.is_none()
                invariant
                    skip < n,
                    n == self.path@.len(),
                    off <= n - skip,
                    (pos matches Some(p) && p < n - skip && find_from_tail(
                        self.path@,
                        skip as int,
                        current,
                    ) == Some(p as int)) || (pos is None && forall|j: int|
                        #![trigger self.path@[j]]
                        n - 1 - skip - off < j <= n - 1 - skip ==> self.path@[j] != current),
                decreases n - skip - off + (if pos is None { 1int } else { 0int }),
            {
                if self.path[n - 1 - skip - off].same(&current) {
                    pos = Some(off);
                    proof {
                        lemma_find_characterization(self.path@, skip as int, current, off as int);
                    }
                } else {
                    off += 1;
                }
            }
            proof {
                if pos is None {
                    lemma_find_none(self.path@, skip as int, current);
                }
            }
        } else {
            proof {
                lemma_find_none(self.path@, skip as int, current);
            }
        }

        if pos.is_none() && next_hop.is_none() {
            return Err(Error::CannotInferNextHop);
        }

        match pos {
            Some(p) => {
                self.path_end_cursor = skip + p;
            },
            None => {},
        }

        self.next_hop = match next_hop {
            Some(h) => Some(h),
            None => self.path_prev(),
        };

        Ok(())
    }

    /// Turn a travelled SEND envelope into the REPORT that walks its path
    /// back to the origin. Needs at least two hops of path to aim at.
    pub fn report(&self) -> (r: Result<MessageRelay, Error>)
        ensures
            self.method is REPORT ==> r == Err::<MessageRelay, Error>(Error::ReportNeedSend),
            self.method is SEND && self.path@.len() < 2 ==> r == Err::<MessageRelay, Error>(
                Error::CannotInferNextHop,
            ),
            self.method is SEND && self.path@.len() >= 2 ==> (match r {
                Ok(rep) => {
                    &&& rep.method is REPORT
                    &&& rep.path@ == self.path@
                    &&& rep.path_end_cursor == 0
                    &&& rep.next_hop == path_prev_at(self.path@, self.path_end_cursor as int)
                    &&& rep.destination == self.path@[0]
                },
                Err(_) => false,
            }),
    {
        if self.method != RelayMethod::SEND {
            return Err(Error::ReportNeedSend);
        }
        if self.path.len() < 2 {
            return Err(Error::CannotInferNextHop);
        }
        Ok(MessageRelay {
            method: RelayMethod::REPORT,
            path: copy_path(&self.path),
            path_end_cursor: 0,
            next_hop: self.path_prev(),
            destination: self.sender(),
        })
    }

    /// Point a SEND envelope at a new destination; a report cannot be
    /// redirected.
    pub fn reset_destination(&mut self, destination: Did) -> (r: Result<(), Error>)
        ensures
            old(self).method is SEND ==> r is Ok && *final(self) == (MessageRelay {
                destination,
                ..*old(self)
            }),
            old(self).method is REPORT ==> r == Err::<(), Error>(Error::ResetDestinationNeedSend)
                && *final(self) == *old(self),
    {
        if self.method == RelayMethod::SEND {
            self.destination = destination;
            Ok(())
        } else {
            Err(Error::ResetDestinationNeedSend)
        }
    }

    /// The original sender: the head of the path.
    pub fn origin(&self) -> (r: Did)
        requires
            self.path@.len() > 0,
        ensures
            r == self.path@[0],
    {
        self.path[0]
    }

    /// Who handed us this message: the origin for a SEND, the last hop
    /// recorded on the path for a REPORT.
    pub fn sender(&self) -> (r: Did)
        requires
            self.path@.len() > 0,
        ensures
            self.method is SEND ==> r == self.path@[0],
            self.method is REPORT ==> r == self.path@[self.path@.len() - 1],
    {
        match self.method {
            RelayMethod::SEND => self.origin(),
            RelayMethod::REPORT => self.path[self.path.len() - 1],
        }
    }

    /// The element just before the one the cursor points at, if the path
    /// reaches back that far.
    pub fn path_prev(&self) -> (r: Option<Did>)
        ensures
            r == path_prev_at(self.path@, self.path_end_cursor as int),
    {
        let n = self.path.len();
        if n < 2 || n - 2 < self.path_end_cursor {
            None
        } else {
            Some(self.path[n - 2 - self.path_end_cursor])
        }
    }
}

/// A copy of a path, element for element.
fn copy_path(path: &Vec<Did>) -> (r: Vec<Did>)
    ensures
        r@ == path@,
{
    let mut out: Vec<Did> = Vec::new();
    let mut i: usize = 0;
    while i < path.len()
        invariant
            i <= path@.len(),
            out@ == path@.subrange(0, i as int),
        decreases path@.len() - i,
    {
        out.push(path[i]);
        i += 1;
    }
    proof {
        assert(out@ =~= path@);
    }
    out
}

/// The hop that precedes hop `i` of a relay run: the tail of the original
/// path for the first hop, the previous hop after that.
pub open spec fn hop_before(path: Seq<Did>, hops: Seq<Did>, i: int) -> Did {
    if i == 0 {
        path[path.len() - 1]
    } else {
        hops[i - 1]
    }
}

/// Path monotonicity. A SEND envelope that successfully relays through the
/// hops `hops` ends with path `path + hops`: each call appends exactly one
/// entry, so the length grows by one per call, and as long as no hop equals
/// the entry before it the path never holds two adjacent equal DIDs.
pub proof fn lemma_send_path_monotonic(path: Seq<Did>, hops: Seq<Did>)
    requires
        no_adjacent_dup(path),
        path.len() > 0,
        forall|i: int| 0 <= i < hops.len() ==> hops[i] != #[trigger] hop_before(path, hops, i),
    ensures
        (path + hops).len() == path.len() + hops.len(),
        no_adjacent_dup(path + hops),
    decreases hops.len(),
{
    if hops.len() == 0 {
        assert(path + hops =~= path);
    } else {
        let path2 = path.push(hops[0]);
        let hops2 = hops.drop_first();
        assert(no_adjacent_dup(path2)) by {
            assert(forall|i: int| #![trigger path2[i]] 0 <= i && i + 1 < path2.len() ==> path2[i]
                != path2[i + 1]) by {
                assert(hops[0] != hop_before(path, hops, 0));
            }
        }
        assert(forall|i: int| 0 <= i < hops2.len() ==> hops2[i] != #[trigger] hop_before(
            path2,
            hops2,
            i,
        )) by {
            assert(forall|i: int| 0 <= i < hops2.len() ==> hop_before(path2, hops2, i)
                == hop_before(path, hops, i + 1) && hops2[i] == hops[i + 1]);
        }
        lemma_send_path_monotonic(path2, hops2);
        assert(path2 + hops2 =~= path + hops);
    }
}

/// Report reversibility. Take a SEND envelope whose path `p` (length `n`,
/// at least 2) has no adjacent duplicates and revisits its origin `p[0]`
/// nowhere between its ends. Its report starts in the state
/// `cursor == 0, next_hop == Some(p[n-2])`, and this lemma shows that the
/// state before the `k`-th `relay(p[n-2-k], None)` call is
/// `cursor == k, next_hop == Some(p[n-2-k])`: every such call succeeds, each
/// of the first `n-2` advances the cursor by one and aims at the hop before,
/// and the last one ends the walk with `cursor == n-1` and no next hop.
pub proof fn lemma_report_reversal(path: Seq<Did>, k: int)
    requires
        no_adjacent_dup(path),
        2 <= path.len(),
        forall|i: int| #![trigger path[i]] 1 <= i <= path.len() - 2 ==> path[i] != path[0],
        0 <= k <= path.len() - 2,
    ensures
        relay_err(
            RelayMethod::REPORT,
            path,
            k,
            Some(path[path.len() - 2 - k]),
            path[0],
            path[path.len() - 2 - k],
            None,
        ) is None,
        k < path.len() - 2 ==> relay_cursor(
            RelayMethod::REPORT,
            path,
            k,
            Some(path[path.len() - 2 - k]),
            path[0],
            path[path.len() - 2 - k],
        ) == k + 1 && relay_next_hop(
            RelayMethod::REPORT,
            path,
            k,
            Some(path[path.len() - 2 - k]),
            path[0],
            path[path.len() - 2 - k],
            None,
        ) == Some(path[path.len() - 3 - k]),
        k == path.len() - 2 ==> relay_cursor(
            RelayMethod::REPORT,
            path,
            k,
            Some(path[path.len() - 2 - k]),
            path[0],
            path[path.len() - 2 - k],
        ) == path.len() - 1 && relay_next_hop(
            RelayMethod::REPORT,
            path,
            k,
            Some(path[path.len() - 2 - k]),
            path[0],
            path[path.len() - 2 - k],
            None,
        ) is None,
{
    let n = path.len() as int;
    let current = path[n - 2 - k];
    if k == n - 2 {
        // The current hop is the origin itself: the final return hop.
        assert(current == path[0]);
    } else {
        // Not the final hop: the aimed-at hop differs from the destination.
        assert(current != path[0]);
        // The scan skips `k` tail entries; the entry at offset 0 is the one
        // the cursor points at, adjacent to `current` in the path, so it
        // differs; the entry at offset 1 is `current` itself.
        assert(path[n - 1 - k] != current);
        assert(find_from_tail(path, k + 1, current) == Some(0int));
        assert(find_from_tail(path, k, current) == Some(1int));
    }
}

} // verus!
