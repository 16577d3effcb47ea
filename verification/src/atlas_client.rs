//! The Atlas client's reading of replies: each request's outcome, from the
//! reply the Atlas service sent.
use vstd::prelude::*;

use crate::atlas::{AtlasId, Message, ProtocolError};
use crate::atlas_store::lookup_answer;

verus! {

/// Errors produced by the Atlas client.
#[derive(Clone, Debug, PartialEq, Eq)]
pub enum AtlasError {
    /// Control-plane protocol could not be decoded.
    Protocol(ProtocolError),
    /// The Atlas service returned an error.
    Remote(String),
    /// The Atlas response channel was closed.
    EndpointClosed,
}

/// The outcome of a get, read from its reply.
pub open spec fn get_outcome_spec(reply: Message) -> Result<Option<AtlasId>, AtlasError> {
    match reply {
        Message::ResponseGet { id, found, .. } => Ok(
            if found {
                Some(id)
            } else {
                None
            },
        ),
        Message::ResponseError { message, .. } => Err(AtlasError::Remote(message)),
        _ => Err(AtlasError::Protocol(ProtocolError::UnknownPayload)),
    }
}

/// The outcome of a remove, read from its reply.
pub open spec fn remove_outcome_spec(reply: Message) -> Result<Option<AtlasId>, AtlasError> {
    match reply {
        Message::ResponseRemove { id, found, .. } => Ok(
            if found {
                Some(id)
            } else {
                None
            },
        ),
        Message::ResponseError { message, .. } => Err(AtlasError::Remote(message)),
        _ => Err(AtlasError::Protocol(ProtocolError::UnknownPayload)),
    }
}

/// The outcome of a get: the stored id, if the entry exists.
pub fn get_outcome(reply: Message) -> (r: Result<Option<AtlasId>, AtlasError>)
    ensures
        r == get_outcome_spec(reply),
{
    match reply {
        Message::ResponseGet { id, found, .. } => Ok(
            if found {
                Some(id)
            } else {
                None
            },
        ),
        Message::ResponseError { message, .. } => Err(AtlasError::Remote(message)),
        _ => Err(AtlasError::Protocol(ProtocolError::UnknownPayload)),
    }
}

/// The outcome of an insert.
pub fn insert_outcome(reply: Message) -> (r: Result<(), AtlasError>)
    ensures
        r == match reply {
            Message::ResponseOk { .. } => Ok(()),
            Message::ResponseError { message, .. } => Err(AtlasError::Remote(message)),
            _ => Err(AtlasError::Protocol(ProtocolError::UnknownPayload)),
        },
{
    match reply {
        Message::ResponseOk { .. } => Ok(()),
        Message::ResponseError { message, .. } => Err(AtlasError::Remote(message)),
        _ => Err(AtlasError::Protocol(ProtocolError::UnknownPayload)),
    }
}

/// The outcome of a remove: the removed id, if the entry existed.
pub fn remove_outcome(reply: Message) -> (r: Result<Option<AtlasId>, AtlasError>)
    ensures
        r == remove_outcome_spec(reply),
{
    match reply {
        Message::ResponseRemove { id, found, .. } => Ok(
            if found {
                Some(id)
            } else {
                None
            },
        ),
        Message::ResponseError { message, .. } => Err(AtlasError::Remote(message)),
        _ => Err(AtlasError::Protocol(ProtocolError::UnknownPayload)),
    }
}

/// The outcome of a lookup: the matching ids.
pub fn lookup_outcome(reply: Message) -> (r: Result<Vec<AtlasId>, AtlasError>)
    ensures
        match reply {
            Message::ResponseLookup { ids, .. } => r matches Ok(v) && v@ == ids@,
            Message::ResponseError { message, .. } => r == Err::<Vec<AtlasId>, AtlasError>(
                AtlasError::Remote(message),
            ),
            _ => r == Err::<Vec<AtlasId>, AtlasError>(
                AtlasError::Protocol(ProtocolError::UnknownPayload),
            ),
        },
{
    match reply {
        Message::ResponseLookup { ids, .. } => Ok(ids),
        Message::ResponseError { message, .. } => Err(AtlasError::Remote(message)),
        _ => Err(AtlasError::Protocol(ProtocolError::UnknownPayload)),
    }
}

/// A client's get, answered from a store, gives back what the store holds
/// for the URI: so after an insert of an id, that id.
pub proof fn lemma_get_reads_back_insert(
    store: Map<Seq<char>, AtlasId>,
    uri: Seq<char>,
    id: AtlasId,
    request_id: u64,
)
    ensures
        get_outcome_spec(
            Message::ResponseGet {
                request_id,
                id: lookup_answer(store, uri).1,
                found: lookup_answer(store, uri).0,
            },
        ) == Ok::<Option<AtlasId>, AtlasError>(
            if store.contains_key(uri) {
                Some(store[uri])
            } else {
                None
            },
        ),
        get_outcome_spec(
            Message::ResponseGet {
                request_id,
                id: lookup_answer(store.insert(uri, id), uri).1,
                found: lookup_answer(store.insert(uri, id), uri).0,
            },
        ) == Ok::<Option<AtlasId>, AtlasError>(Some(id)),
{
}

} // verus!
