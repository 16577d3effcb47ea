//! The switchboard client's control plane: matching replies to the
//! requests that wait for them, handing wiring updates to their endpoints
//! (holding those that arrive before the endpoint is known), and reading a
//! reply as the outcome of a request.
use std::collections::HashMap;
use vstd::prelude::*;

use super::protocol::{EndpointId, Message, ProtocolError};

verus! {

broadcast use vstd::std_specs::hash::group_hash_axioms;

/// Errors produced by the switchboard client.
#[derive(Clone, Debug, PartialEq, Eq)]
pub enum SwitchboardError {
    /// Control-plane protocol could not be decoded.
    Protocol(ProtocolError),
    /// The switchboard service returned an error.
    Remote(String),
    /// The switchboard update stream was closed.
    EndpointClosed,
    /// No route is available yet for this endpoint.
    NoRoute,
    /// Internal switchboard state was unavailable.
    StateUnavailable,
}

/// The correlation id of a reply, if the message is one.
pub open spec fn reply_id(m: Message) -> Option<u64> {
    match m {
        Message::ResponseOk { request_id } => Some(request_id),
        Message::ResponseRegister { request_id, .. } => Some(request_id),
        Message::ResponseError { request_id, .. } => Some(request_id),
        _ => None,
    }
}

/// The updates held for endpoint `e`.
pub open spec fn held(queued: Map<EndpointId, Vec<Vec<u8>>>, e: EndpointId) -> Seq<Vec<u8>> {
    if queued.contains_key(e) {
        queued[e]@
    } else {
        Seq::empty()
    }
}

/// The routing state of a switchboard client. Channels are named by their
/// handles.
pub struct ControlRouter {
    pending: HashMap<u64, u64>,
    endpoints: HashMap<EndpointId, u64>,
    queued: HashMap<EndpointId, Vec<Vec<u8>>>,
}

impl ControlRouter {
    /// The reply channel of each request in flight.
    pub closed spec fn pending_map(&self) -> Map<u64, u64> {
        self.pending@
    }

    /// The update channel of each registered endpoint.
    pub closed spec fn endpoint_map(&self) -> Map<EndpointId, u64> {
        self.endpoints@
    }

    /// The updates held for endpoints not yet registered.
    pub closed spec fn queued_map(&self) -> Map<EndpointId, Vec<Vec<u8>>> {
        self.queued@
    }

    /// A router with nothing in flight.
    pub fn new() -> (r: Self)
        ensures
            r.pending_map() == Map::<u64, u64>::empty(),
            r.endpoint_map() == Map::<EndpointId, u64>::empty(),
            r.queued_map() == Map::<EndpointId, Vec<Vec<u8>>>::empty(),
    {
        ControlRouter { pending: HashMap::new(), endpoints: HashMap::new(), queued: HashMap::new() }
    }

    /// A request is in flight; its reply goes to `channel`.
    pub fn await_reply(&mut self, request_id: u64, channel: u64)
        ensures
            final(self).pending_map() == old(self).pending_map().insert(request_id, channel),
            final(self).endpoint_map() == old(self).endpoint_map(),
            final(self).queued_map() == old(self).queued_map(),
    {
        self.pending.insert(request_id, channel);
    }

    /// A request has been answered, or given up.
    pub fn settle(&mut self, request_id: u64)
        ensures
            final(self).pending_map() == old(self).pending_map().remove(request_id),
            final(self).endpoint_map() == old(self).endpoint_map(),
            final(self).queued_map() == old(self).queued_map(),
    {
        self.pending.remove(&request_id);
    }

    /// Route an incoming control message, carried by `payload`: a reply goes
    /// to the channel of the request it answers, which is then no longer
    /// waited for; a wiring update goes to its endpoint's channel, or is held
    /// until the endpoint registers. Returns the channel and payload to
    /// forward, if any.
    pub fn route(&mut self, message: &Message, payload: Vec<u8>) -> (r: Option<(u64, Vec<u8>)>)
        ensures
            match reply_id(*message) {
                Some(id) => {
                    &&& final(self).endpoint_map() == old(self).endpoint_map()
                    &&& final(self).queued_map() == old(self).queued_map()
                    &&& final(self).pending_map() == old(self).pending_map().remove(id)
                    &&& r == if old(self).pending_map().contains_key(id) {
                        Some((old(self).pending_map()[id], payload))
                    } else {
                        None
                    }
                },
                None => match *message {
                    Message::WiringUpdate { endpoint_id, .. } => {
                        &&& final(self).endpoint_map() == old(self).endpoint_map()
                        &&& final(self).pending_map() == old(self).pending_map()
                        &&& if old(self).endpoint_map().contains_key(endpoint_id) {
                            &&& r == Some((old(self).endpoint_map()[endpoint_id], payload))
                            &&& final(self).queued_map() == old(self).queued_map()
                        } else {
                            &&& r is None
                            &&& final(self).queued_map().dom() == old(self).queued_map().dom().insert(
                                endpoint_id,
                            )
                            &&& held(final(self).queued_map(), endpoint_id) == held(
                                old(self).queued_map(),
                                endpoint_id,
                            ).push(payload)
                            &&& forall|e: EndpointId|
                                e != endpoint_id ==> #[trigger] final(self).queued_map().contains_key(e)
                                    == old(self).queued_map().contains_key(e) && (
                                old(self).queued_map().contains_key(e) ==> final(self).queued_map()[e]
                                    == old(self).queued_map()[e])
                        }
                    },
                    _ => {
                        &&& r is None
                        &&& final(self).pending_map() == old(self).pending_map()
                        &&& final(self).endpoint_map() == old(self).endpoint_map()
                        &&& final(self).queued_map() == old(self).queued_map()
                    },
                },
            },
    {
        match message {
            Message::ResponseOk { request_id } | Message::ResponseRegister { request_id, .. }
            | Message::ResponseError { request_id, .. } => {
                let id = *request_id;
                match self.pending.remove(&id) {
                    Some(channel) => Some((channel, payload)),
                    None => None,
                }
            },
            Message::WiringUpdate { endpoint_id, .. } => {
                let e = *endpoint_id;
                match self.endpoints.get(&e) {
                    Some(channel) => Some((*channel, payload)),
                    None => {
                        let mut list = match self.queued.remove(&e) {
                            Some(list) => list,
                            None => Vec::new(),
                        };
                        list.push(payload);
                        self.queued.insert(e, list);
                        None
                    },
                }
            },
            _ => None,
        }
    }

    /// An endpoint's update channel is known: record it and hand back the
    /// updates held for the endpoint, in the order they arrived.
    pub fn register_endpoint_channel(&mut self, endpoint_id: EndpointId, channel: u64) -> (r: Vec<
        Vec<u8>,
    >)
        ensures
            r@ == held(old(self).queued_map(), endpoint_id),
            final(self).endpoint_map() == old(self).endpoint_map().insert(endpoint_id, channel),
            final(self).queued_map() == old(self).queued_map().remove(endpoint_id),
            final(self).pending_map() == old(self).pending_map(),
    {
        self.endpoints.insert(endpoint_id, channel);
        match self.queued.remove(&endpoint_id) {
            Some(list) => list,
            None => Vec::new(),
        }
    }
}

/// The outcome of a connect request, read from its reply.
pub fn connect_outcome(reply: Message) -> (r: Result<(), SwitchboardError>)
    ensures
        r == match reply {
            Message::ResponseOk { .. } => Ok(()),
            Message::ResponseError { message, .. } => Err(SwitchboardError::Remote(message)),
            _ => Err(SwitchboardError::Protocol(ProtocolError::UnknownPayload)),
        },
{
    match reply {
        Message::ResponseOk { .. } => Ok(()),
        Message::ResponseError { message, .. } => Err(SwitchboardError::Remote(message)),
        _ => Err(SwitchboardError::Protocol(ProtocolError::UnknownPayload)),
    }
}

/// The outcome of a register request, read from its reply: the endpoint
/// identifier the switchboard assigned.
pub fn register_outcome(reply: Message) -> (r: Result<EndpointId, SwitchboardError>)
    ensures
        r == match reply {
            Message::ResponseRegister { endpoint_id, .. } => Ok(endpoint_id),
            Message::ResponseError { message, .. } => Err(SwitchboardError::Remote(message)),
            _ => Err(SwitchboardError::Protocol(ProtocolError::UnknownPayload)),
        },
{
    match reply {
        Message::ResponseRegister { endpoint_id, .. } => Ok(endpoint_id),
        Message::ResponseError { message, .. } => Err(SwitchboardError::Remote(message)),
        _ => Err(SwitchboardError::Protocol(ProtocolError::UnknownPayload)),
    }
}

/// Updates held for an endpoint come out in the order they arrived, after
/// any held before them.
pub proof fn lemma_held_updates_keep_order(
    queued: Map<EndpointId, Vec<Vec<u8>>>,
    e: EndpointId,
    first: Vec<u8>,
    second: Vec<u8>,
    after_first: Map<EndpointId, Vec<Vec<u8>>>,
    after_second: Map<EndpointId, Vec<Vec<u8>>>,
)
    requires
        held(after_first, e) == held(queued, e).push(first),
        held(after_second, e) == held(after_first, e).push(second),
    ensures
        held(after_second, e) == held(queued, e) + seq![first, second],
{
    assert(held(after_second, e) =~= held(queued, e) + seq![first, second]);
}

} // verus!
