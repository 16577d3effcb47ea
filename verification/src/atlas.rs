//! Atlas control-plane messages and their table form.
//!
//! Atlas messages travel as FlatBuffers tables: a root table with the
//! request id and a payload union, under the file identifier `ATLS`.
//! [`encode_tables`] gives the table contents a message is written as;
//! [`decode_tables`] turns table contents read from a buffer back into a
//! message, rejecting absent members and parts.
use vstd::prelude::*;

verus! {

/// Id type stored in the Atlas.
pub type AtlasId = u64;

/// The file identifier of Atlas buffers.
pub const ATLAS_IDENTIFIER: [u8; 4] = [0x41, 0x54, 0x4c, 0x53];

/// A URI naming an Atlas entry, held as its text.
#[derive(Clone, Debug, PartialEq, Eq)]
pub struct Uri {
    text: String,
}

impl View for Uri {
    type V = Seq<char>;

    closed spec fn view(&self) -> Seq<char> {
        self.text@
    }
}

impl Uri {
    /// The URI with this text.
    pub fn new(text: &str) -> (r: Self)
        ensures
            r@ == text@,
    {
        Uri { text: text.to_owned() }
    }

    /// The text of the URI.
    pub fn as_str(&self) -> (r: &str)
        ensures
            r@ == self@,
    {
        self.text.as_str()
    }

    /// Whether two URIs have the same text.
    pub fn same_as(&self, other: &Uri) -> (r: bool)
        ensures
            r == (self@ == other@),
    {
        self.text == other.text
    }
}

/// Atlas protocol message envelope.
#[derive(Clone, Debug, PartialEq, Eq)]
pub enum Message {
    /// Retrieve a single Atlas entry by URI.
    GetRequest {
        /// Correlation identifier supplied by the client.
        request_id: u64,
        /// URI for the lookup.
        uri: Uri,
        /// Shared handle for the response channel.
        reply_channel: u64,
    },
    /// Insert or update an Atlas entry.
    InsertRequest {
        /// Correlation identifier supplied by the client.
        request_id: u64,
        /// URI to insert.
        uri: Uri,
        /// Value to store against the URI.
        id: AtlasId,
        /// Shared handle for the response channel.
        reply_channel: u64,
    },
    /// Remove an Atlas entry by URI.
    RemoveRequest {
        /// Correlation identifier supplied by the client.
        request_id: u64,
        /// URI for the removal.
        uri: Uri,
        /// Shared handle for the response channel.
        reply_channel: u64,
    },
    /// Lookup Atlas entries matching the supplied URI pattern.
    LookupRequest {
        /// Correlation identifier supplied by the client.
        request_id: u64,
        /// Pattern used to match stored URIs.
        pattern: String,
        /// Shared handle for the response channel.
        reply_channel: u64,
    },
    /// Response to a get request.
    ResponseGet {
        /// Correlation identifier supplied by the client.
        request_id: u64,
        /// Stored id, if found.
        id: AtlasId,
        /// Whether the entry existed.
        found: bool,
    },
    /// Response to a remove request.
    ResponseRemove {
        /// Correlation identifier supplied by the client.
        request_id: u64,
        /// Removed id, if found.
        id: AtlasId,
        /// Whether the entry existed.
        found: bool,
    },
    /// Response to a lookup request.
    ResponseLookup {
        /// Correlation identifier supplied by the client.
        request_id: u64,
        /// Matching Atlas identifiers.
        ids: Vec<AtlasId>,
    },
    /// Empty response acknowledging a request.
    ResponseOk {
        /// Correlation identifier supplied by the client.
        request_id: u64,
    },
    /// Error response for a request.
    ResponseError {
        /// Correlation identifier supplied by the client.
        request_id: u64,
        /// Error message supplied by the Atlas service.
        message: String,
    },
}

/// The correlation identifier of a message.
pub open spec fn message_request_id(m: Message) -> u64 {
    match m {
        Message::GetRequest { request_id, .. } => request_id,
        Message::InsertRequest { request_id, .. } => request_id,
        Message::RemoveRequest { request_id, .. } => request_id,
        Message::LookupRequest { request_id, .. } => request_id,
        Message::ResponseGet { request_id, .. } => request_id,
        Message::ResponseRemove { request_id, .. } => request_id,
        Message::ResponseLookup { request_id, .. } => request_id,
        Message::ResponseOk { request_id } => request_id,
        Message::ResponseError { request_id, .. } => request_id,
    }
}

impl Message {
    /// Return the request identifier associated with this message.
    pub fn request_id(&self) -> (r: u64)
        ensures
            r == message_request_id(*self),
    {
        match self {
            Message::GetRequest { request_id, .. } => *request_id,
            Message::InsertRequest { request_id, .. } => *request_id,
            Message::RemoveRequest { request_id, .. } => *request_id,
            Message::LookupRequest { request_id, .. } => *request_id,
            Message::ResponseGet { request_id, .. } => *request_id,
            Message::ResponseRemove { request_id, .. } => *request_id,
            Message::ResponseLookup { request_id, .. } => *request_id,
            Message::ResponseOk { request_id } => *request_id,
            Message::ResponseError { request_id, .. } => *request_id,
        }
    }
}

/// Errors produced while encoding or decoding Atlas messages.
#[derive(Clone, Debug, PartialEq, Eq)]
pub enum ProtocolError {
    /// The FlatBuffers payload failed to verify (with the verifier's
    /// description).
    InvalidFlatbuffer(String),
    /// Message payload was not present.
    MissingPayload,
    /// Message payload type is unsupported.
    UnknownPayload,
    /// Atlas message identifier did not match.
    InvalidIdentifier,
}

/// The description of each protocol error other than an invalid buffer.
pub open spec fn protocol_error_text(e: ProtocolError) -> Seq<char> {
    match e {
        ProtocolError::InvalidFlatbuffer(m) => "invalid flatbuffer: "@ + m@,
        ProtocolError::MissingPayload => "atlas message missing payload"@,
        ProtocolError::UnknownPayload => "unknown atlas payload type"@,
        ProtocolError::InvalidIdentifier => "invalid atlas message identifier"@,
    }
}

impl ProtocolError {
    /// The human-readable description of the error.
    pub fn message(&self) -> (r: String)
        ensures
            r@ == protocol_error_text(*self),
    {
        match self {
            ProtocolError::InvalidFlatbuffer(m) => crate::text::concat("invalid flatbuffer: ", m.as_str()),
            ProtocolError::MissingPayload => "atlas message missing payload".to_owned(),
            ProtocolError::UnknownPayload => "unknown atlas payload type".to_owned(),
            ProtocolError::InvalidIdentifier => "invalid atlas message identifier".to_owned(),
        }
    }
}

/// Whether a buffer carries the Atlas file identifier at bytes 4..8.
pub open spec fn has_atlas_identifier(bytes: Seq<u8>) -> bool {
    bytes.len() >= 8 && bytes.subrange(4, 8) == ATLAS_IDENTIFIER@
}

/// Whether a buffer carries the Atlas file identifier.
pub fn atlas_message_buffer_has_identifier(bytes: &[u8]) -> (r: bool)
    ensures
        r == has_atlas_identifier(bytes@),
{
    if bytes.len() < 8 {
        return false;
    }
    let ok = bytes[4] == 0x41 && bytes[5] == 0x54 && bytes[6] == 0x4c && bytes[7] == 0x53;
    proof {
        if ok {
            assert(bytes@.subrange(4, 8) =~= ATLAS_IDENTIFIER@);
        } else {
            if bytes@.subrange(4, 8) == ATLAS_IDENTIFIER@ {
                assert(bytes@.subrange(4, 8)[0] == bytes@[4]);
                assert(bytes@.subrange(4, 8)[1] == bytes@[5]);
                assert(bytes@.subrange(4, 8)[2] == bytes@[6]);
                assert(bytes@.subrange(4, 8)[3] == bytes@[7]);
            }
        }
    }
    ok
}

// ---------------------------------------------------------------------
// The table form.
// ---------------------------------------------------------------------
/// The payload union of an `AtlasMessage` table: which member it holds and
/// that member's fields. A member whose table is absent is `None`; a URI or
/// string field that is absent is `None` inside it.
#[derive(Clone, Debug, PartialEq, Eq)]
pub enum PayloadTable {
    /// No payload.
    Empty,
    /// A `GetRequest` member: URI text and reply channel.
    GetRequest(Option<(Option<String>, u64)>),
    /// An `InsertRequest` member: URI text, id and reply channel.
    InsertRequest(Option<(Option<String>, AtlasId, u64)>),
    /// A `RemoveRequest` member: URI text and reply channel.
    RemoveRequest(Option<(Option<String>, u64)>),
    /// A `LookupRequest` member: pattern and reply channel.
    LookupRequest(Option<(Option<String>, u64)>),
    /// A `GetResponse` member: id and found flag.
    GetResponse(Option<(AtlasId, bool)>),
    /// A `RemoveResponse` member: id and found flag.
    RemoveResponse(Option<(AtlasId, bool)>),
    /// A `LookupResponse` member: the ids vector, when present.
    LookupResponse(Option<Option<Vec<AtlasId>>>),
    /// An `OkResponse` member.
    OkResponse,
    /// An `ErrorResponse` member: its message string, when present.
    ErrorResponse(Option<Option<String>>),
    /// A member type this protocol does not know.
    Unknown(u8),
}

/// The contents of an `AtlasMessage` root table.
#[derive(Clone, Debug, PartialEq, Eq)]
pub struct MessageTable {
    /// The correlation identifier.
    pub request_id: u64,
    /// The payload union.
    pub payload: PayloadTable,
}

/// The ids of an optional vector; an absent vector holds none.
pub open spec fn ids_view(v: Option<Vec<AtlasId>>) -> Seq<AtlasId> {
    match v {
        Some(ids) => ids@,
        None => Seq::empty(),
    }
}

/// The error that table contents decode to, if any.
pub open spec fn table_error(t: MessageTable) -> Option<ProtocolError> {
    match t.payload {
        PayloadTable::Empty => Some(ProtocolError::UnknownPayload),
        PayloadTable::Unknown(_) => Some(ProtocolError::UnknownPayload),
        PayloadTable::GetRequest(Some((Some(_), _))) => None,
        PayloadTable::GetRequest(_) => Some(ProtocolError::MissingPayload),
        PayloadTable::InsertRequest(Some((Some(_), _, _))) => None,
        PayloadTable::InsertRequest(_) => Some(ProtocolError::MissingPayload),
        PayloadTable::RemoveRequest(Some((Some(_), _))) => None,
        PayloadTable::RemoveRequest(_) => Some(ProtocolError::MissingPayload),
        PayloadTable::LookupRequest(Some((Some(_), _))) => None,
        PayloadTable::LookupRequest(_) => Some(ProtocolError::MissingPayload),
        PayloadTable::GetResponse(None) => Some(ProtocolError::MissingPayload),
        PayloadTable::RemoveResponse(None) => Some(ProtocolError::MissingPayload),
        PayloadTable::LookupResponse(None) => Some(ProtocolError::MissingPayload),
        PayloadTable::ErrorResponse(Some(Some(_))) => None,
        PayloadTable::ErrorResponse(_) => Some(ProtocolError::MissingPayload),
        _ => None,
    }
}

/// Whether message `m` is what the table contents denote.
pub open spec fn message_denoted(t: MessageTable, m: Message) -> bool {
    let rid = t.request_id;
    match t.payload {
        PayloadTable::GetRequest(Some((Some(u), reply))) => m matches Message::GetRequest {
            request_id,
            uri,
            reply_channel,
        } && request_id == rid && uri@ == u@ && reply_channel == reply,
        PayloadTable::InsertRequest(Some((Some(u), i, reply))) => m matches Message::InsertRequest {
            request_id,
            uri,
            id,
            reply_channel,
        } && request_id == rid && uri@ == u@ && id == i && reply_channel == reply,
        PayloadTable::RemoveRequest(Some((Some(u), reply))) => m matches Message::RemoveRequest {
            request_id,
            uri,
            reply_channel,
        } && request_id == rid && uri@ == u@ && reply_channel == reply,
        PayloadTable::LookupRequest(Some((Some(p), reply))) => m matches Message::LookupRequest {
            request_id,
            pattern,
            reply_channel,
        } && request_id == rid && pattern@ == p@ && reply_channel == reply,
        PayloadTable::GetResponse(Some((i, f))) => m matches Message::ResponseGet {
            request_id,
            id,
            found,
        } && request_id == rid && id == i && found == f,
        PayloadTable::RemoveResponse(Some((i, f))) => m matches Message::ResponseRemove {
            request_id,
            id,
            found,
        } && request_id == rid && id == i && found == f,
        PayloadTable::LookupResponse(Some(v)) => m matches Message::ResponseLookup { request_id, ids }
            && request_id == rid && ids@ == ids_view(v),
        PayloadTable::OkResponse => m matches Message::ResponseOk { request_id } && request_id == rid,
        PayloadTable::ErrorResponse(Some(Some(text))) => m matches Message::ResponseError {
            request_id,
            message,
        } && request_id == rid && message@ == text@,
        _ => false,
    }
}

/// Copies ids out of an optional vector (absent means none).
pub fn decode_ids(ids: &Option<Vec<AtlasId>>) -> (r: Vec<AtlasId>)
    ensures
        r@ == ids_view(*ids),
{
    let mut out: Vec<AtlasId> = Vec::new();
    match ids {
        Some(vec) => {
            let mut k: usize = 0;
            while k < vec.len()
                invariant
                    k <= vec@.len(),
                    out@ == vec@.subrange(0, k as int),
                decreases vec@.len() - k,
            {
                out.push(vec[k]);
                assert(out@ =~= vec@.subrange(0, k + 1));
                k = k + 1;
            }
            assert(vec@.subrange(0, vec@.len() as int) =~= vec@);
        },
        None => {},
    }
    out
}

/// The URI a table's URI text names.
pub fn decode_uri(text: &String) -> (r: Uri)
    ensures
        r@ == text@,
{
    Uri::new(text.as_str())
}

/// Turns the contents of an `AtlasMessage` table into a message: a known
/// payload member must be present with its URI or string; an absent ids
/// vector reads as none.
pub fn decode_tables(table: &MessageTable) -> (r: Result<Message, ProtocolError>)
    ensures
        match table_error(*table) {
            Some(e) => r == Err::<Message, ProtocolError>(e),
            None => r matches Ok(m) && message_denoted(*table, m),
        },
{
    let request_id = table.request_id;
    match &table.payload {
        PayloadTable::GetRequest(Some((Some(u), reply))) => Ok(
            Message::GetRequest { request_id, uri: decode_uri(u), reply_channel: *reply },
        ),
        PayloadTable::InsertRequest(Some((Some(u), id, reply))) => Ok(
            Message::InsertRequest { request_id, uri: decode_uri(u), id: *id, reply_channel: *reply },
        ),
        PayloadTable::RemoveRequest(Some((Some(u), reply))) => Ok(
            Message::RemoveRequest { request_id, uri: decode_uri(u), reply_channel: *reply },
        ),
        PayloadTable::LookupRequest(Some((Some(p), reply))) => Ok(
            Message::LookupRequest {
                request_id,
                pattern: p.as_str().to_owned(),
                reply_channel: *reply,
            },
        ),
        PayloadTable::GetResponse(Some((id, found))) => Ok(
            Message::ResponseGet { request_id, id: *id, found: *found },
        ),
        PayloadTable::RemoveResponse(Some((id, found))) => Ok(
            Message::ResponseRemove { request_id, id: *id, found: *found },
        ),
        PayloadTable::LookupResponse(Some(ids)) => Ok(
            Message::ResponseLookup { request_id, ids: decode_ids(ids) },
        ),
        PayloadTable::OkResponse => Ok(Message::ResponseOk { request_id }),
        PayloadTable::ErrorResponse(Some(Some(text))) => Ok(
            Message::ResponseError { request_id, message: text.as_str().to_owned() },
        ),
        PayloadTable::Empty => Err(ProtocolError::UnknownPayload),
        PayloadTable::Unknown(_) => Err(ProtocolError::UnknownPayload),
        _ => Err(ProtocolError::MissingPayload),
    }
}

/// Whether table contents are what message `m` is written as: every member
/// and part present.
pub open spec fn message_written(m: Message, t: MessageTable) -> bool {
    &&& t.request_id == message_request_id(m)
    &&& match m {
        Message::GetRequest { uri, reply_channel, .. } => t.payload matches PayloadTable::GetRequest(
            Some((Some(u), reply)),
        ) && u@ == uri@ && reply == reply_channel,
        Message::InsertRequest { uri, id, reply_channel, .. } => t.payload
            matches PayloadTable::InsertRequest(Some((Some(u), i, reply))) && u@ == uri@ && i == id
            && reply == reply_channel,
        Message::RemoveRequest { uri, reply_channel, .. } => t.payload
            matches PayloadTable::RemoveRequest(Some((Some(u), reply))) && u@ == uri@ && reply
            == reply_channel,
        Message::LookupRequest { pattern, reply_channel, .. } => t.payload
            matches PayloadTable::LookupRequest(Some((Some(p), reply))) && p@ == pattern@ && reply
            == reply_channel,
        Message::ResponseGet { id, found, .. } => t.payload == PayloadTable::GetResponse(
            Some((id, found)),
        ),
        Message::ResponseRemove { id, found, .. } => t.payload == PayloadTable::RemoveResponse(
            Some((id, found)),
        ),
        Message::ResponseLookup { ids, .. } => t.payload matches PayloadTable::LookupResponse(
            Some(Some(v)),
        ) && v@ == ids@,
        Message::ResponseOk { .. } => t.payload == PayloadTable::OkResponse,
        Message::ResponseError { message, .. } => t.payload matches PayloadTable::ErrorResponse(
            Some(Some(text)),
        ) && text@ == message@,
    }
}

/// The table contents a message is written as.
pub fn encode_tables(message: &Message) -> (r: MessageTable)
    ensures
        message_written(*message, r),
{
    let request_id = message.request_id();
    let payload = match message {
        Message::GetRequest { uri, reply_channel, .. } => PayloadTable::GetRequest(
            Some((Some(uri.as_str().to_owned()), *reply_channel)),
        ),
        Message::InsertRequest { uri, id, reply_channel, .. } => PayloadTable::InsertRequest(
            Some((Some(uri.as_str().to_owned()), *id, *reply_channel)),
        ),
        Message::RemoveRequest { uri, reply_channel, .. } => PayloadTable::RemoveRequest(
            Some((Some(uri.as_str().to_owned()), *reply_channel)),
        ),
        Message::LookupRequest { pattern, reply_channel, .. } => PayloadTable::LookupRequest(
            Some((Some(pattern.as_str().to_owned()), *reply_channel)),
        ),
        Message::ResponseGet { id, found, .. } => PayloadTable::GetResponse(Some((*id, *found))),
        Message::ResponseRemove { id, found, .. } => PayloadTable::RemoveResponse(Some((*id, *found))),
        Message::ResponseLookup { ids, .. } => PayloadTable::LookupResponse(Some(Some(copy_ids(ids)))),
        Message::ResponseOk { .. } => PayloadTable::OkResponse,
        Message::ResponseError { message, .. } => PayloadTable::ErrorResponse(
            Some(Some(message.as_str().to_owned())),
        ),
    };
    MessageTable { request_id, payload }
}

/// A copy of a list of ids.
fn copy_ids(ids: &Vec<AtlasId>) -> (r: Vec<AtlasId>)
    ensures
        r@ == ids@,
{
    let mut out: Vec<AtlasId> = Vec::new();
    let mut k: usize = 0;
    while k < ids.len()
        invariant
            k <= ids@.len(),
            out@ == ids@.subrange(0, k as int),
        decreases ids@.len() - k,
    {
        out.push(ids[k]);
        assert(out@ =~= ids@.subrange(0, k + 1));
        k = k + 1;
    }
    assert(ids@.subrange(0, ids@.len() as int) =~= ids@);
    out
}

/// Messages that agree on every field, strings and lists by content.
pub open spec fn same_message(a: Message, b: Message) -> bool {
    match (a, b) {
        (
            Message::GetRequest { request_id: r1, uri: u1, reply_channel: c1 },
            Message::GetRequest { request_id: r2, uri: u2, reply_channel: c2 },
        ) => r1 == r2 && u1@ == u2@ && c1 == c2,
        (
            Message::InsertRequest { request_id: r1, uri: u1, id: i1, reply_channel: c1 },
            Message::InsertRequest { request_id: r2, uri: u2, id: i2, reply_channel: c2 },
        ) => r1 == r2 && u1@ == u2@ && i1 == i2 && c1 == c2,
        (
            Message::RemoveRequest { request_id: r1, uri: u1, reply_channel: c1 },
            Message::RemoveRequest { request_id: r2, uri: u2, reply_channel: c2 },
        ) => r1 == r2 && u1@ == u2@ && c1 == c2,
        (
            Message::LookupRequest { request_id: r1, pattern: p1, reply_channel: c1 },
            Message::LookupRequest { request_id: r2, pattern: p2, reply_channel: c2 },
        ) => r1 == r2 && p1@ == p2@ && c1 == c2,
        (
            Message::ResponseGet { request_id: r1, id: i1, found: f1 },
            Message::ResponseGet { request_id: r2, id: i2, found: f2 },
        ) => r1 == r2 && i1 == i2 && f1 == f2,
        (
            Message::ResponseRemove { request_id: r1, id: i1, found: f1 },
            Message::ResponseRemove { request_id: r2, id: i2, found: f2 },
        ) => r1 == r2 && i1 == i2 && f1 == f2,
        (
            Message::ResponseLookup { request_id: r1, ids: v1 },
            Message::ResponseLookup { request_id: r2, ids: v2 },
        ) => r1 == r2 && v1@ == v2@,
        (Message::ResponseOk { request_id: r1 }, Message::ResponseOk { request_id: r2 }) => r1 == r2,
        (
            Message::ResponseError { request_id: r1, message: m1 },
            Message::ResponseError { request_id: r2, message: m2 },
        ) => r1 == r2 && m1@ == m2@,
        _ => false,
    }
}

/// Writing a message out and reading the tables back gives the message
/// again: the tables decode without error, to a message that agrees with
/// the written one on every field.
pub proof fn lemma_tables_round_trip(m: Message, t: MessageTable, back: Message)
    requires
        message_written(m, t),
        message_denoted(t, back),
    ensures
        table_error(t) is None,
        same_message(m, back),
{
}

} // verus!
