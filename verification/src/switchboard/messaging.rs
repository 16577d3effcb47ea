//! Messaging endpoints' targets and the fanout's round-robin choice.
use vstd::prelude::*;

use super::protocol::EndpointId;

verus! {

/// Target that a client can connect to for a given request/response pair.
pub trait ClientTarget<Req, Rep> {
    /// The endpoint this target names.
    spec fn target(&self) -> EndpointId;

    /// Return the target endpoint identifier.
    fn endpoint_id(&self) -> (r: EndpointId)
        ensures
            r == self.target(),
    ;
}

/// Target that a subscriber can connect to for a given payload type.
pub trait SubscriberTarget<Req> {
    /// The endpoint this target names.
    spec fn target(&self) -> EndpointId;

    /// Return the target endpoint identifier.
    fn endpoint_id(&self) -> (r: EndpointId)
        ensures
            r == self.target(),
    ;
}

/// Target that a publisher or fanout can connect to for a given payload
/// type.
pub trait PublisherTarget<Rep> {
    /// The endpoint this target names.
    spec fn target(&self) -> EndpointId;

    /// Return the target endpoint identifier.
    fn endpoint_id(&self) -> (r: EndpointId)
        ensures
            r == self.target(),
    ;
}

/// Target that a server can connect to for a given request/response pair.
pub trait ServerTarget<Req, Rep> {
    /// The endpoint this target names.
    spec fn target(&self) -> EndpointId;

    /// Return the target endpoint identifier.
    fn endpoint_id(&self) -> (r: EndpointId)
        ensures
            r == self.target(),
    ;
}

impl<Req, Rep> ClientTarget<Req, Rep> for EndpointId {
    open spec fn target(&self) -> EndpointId {
        *self
    }

    fn endpoint_id(&self) -> (r: EndpointId) {
        *self
    }
}

impl<Req> SubscriberTarget<Req> for EndpointId {
    open spec fn target(&self) -> EndpointId {
        *self
    }

    fn endpoint_id(&self) -> (r: EndpointId) {
        *self
    }
}

impl<Rep> PublisherTarget<Rep> for EndpointId {
    open spec fn target(&self) -> EndpointId {
        *self
    }

    fn endpoint_id(&self) -> (r: EndpointId) {
        *self
    }
}

impl<Req, Rep> ServerTarget<Req, Rep> for EndpointId {
    open spec fn target(&self) -> EndpointId {
        *self
    }

    fn endpoint_id(&self) -> (r: EndpointId) {
        *self
    }
}

/// Where a fanout sends its next message, given its cursor and how many
/// outbound links it has: the link at the cursor (wrapped round), and the
/// cursor after it. With no links there is no route.
pub open spec fn fanout_step(next: usize, outbound: usize) -> Option<(usize, usize)> {
    if outbound == 0 {
        None
    } else {
        let idx = next % outbound;
        Some((idx, ((idx + 1) % (outbound as int)) as usize))
    }
}

/// The fanout's round-robin choice of outbound link.
pub fn fanout_target(next: usize, outbound: usize) -> (r: Option<(usize, usize)>)
    ensures
        r == fanout_step(next, outbound),
        r matches Some((idx, after)) ==> idx < outbound && after < outbound,
{
    if outbound == 0 {
        return None;
    }
    let idx = next % outbound;
    let after = if idx + 1 == outbound {
        0
    } else {
        idx + 1
    };
    assert(after == (idx + 1) % (outbound as int)) by (nonlinear_arith)
        requires
            idx < outbound,
            after == if idx + 1 == outbound { 0 } else { idx + 1 },
    ;
    Some((idx, after))
}

/// A fanout visits its links in turn: from any cursor, `n` sends in a row
/// go to `n` consecutive links, wrapping round, so over `outbound` sends
/// every link gets exactly one.
pub proof fn lemma_fanout_cycles(next: usize, outbound: usize)
    requires
        outbound > 0,
    ensures
        fanout_step(next, outbound) matches Some((idx, after)) && fanout_step(after, outbound)
            matches Some((idx2, _)) && idx2 == (idx + 1) % (outbound as int),
{
    let idx = next % outbound;
    let after = ((idx + 1) % (outbound as int)) as usize;
    assert(after < outbound) by (nonlinear_arith)
        requires
            outbound > 0,
            after == ((idx + 1) % (outbound as int)) as usize,
    ;
    assert(after % outbound == after) by (nonlinear_arith)
        requires
            after < outbound,
    ;
}

} // verus!
