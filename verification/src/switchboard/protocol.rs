//! Switchboard control-plane messages and their table form.
//!
//! Messages travel as FlatBuffers tables: a root table carrying the request
//! id and a payload union. [`encode_tables`] gives the table contents a
//! message is written as, and [`decode_tables`] turns table contents read
//! from a buffer back into a message, rejecting missing or malformed parts.
use vstd::prelude::*;

verus! {

/// Switchboard endpoint identifier.
pub type EndpointId = u32;

/// Schema identifier carried by endpoints (16-byte hash).
pub type SchemaId = [u8; 16];

/// The file identifier the switchboard's buffers carry.
pub const SWITCHBOARD_IDENTIFIER: [u8; 4] = [0x53, 0x42, 0x53, 0x57];

/// Cardinality constraint for endpoints.
#[derive(Clone, Copy, Debug, PartialEq, Eq, Structural)]
pub enum Cardinality {
    /// No channels are permitted.
    Zero,
    /// At most one channel may be attached.
    One,
    /// Any number of channels may be attached.
    Many,
}

/// Whether `card` permits `count` attached channels.
pub open spec fn card_allows(card: Cardinality, count: int) -> bool {
    match card {
        Cardinality::Zero => count == 0,
        Cardinality::One => count <= 1,
        Cardinality::Many => true,
    }
}

impl Cardinality {
    /// Returns true if the provided count is permitted.
    pub fn allows(self, count: usize) -> (r: bool)
        ensures
            r == card_allows(self, count as int),
    {
        match self {
            Cardinality::Zero => count == 0,
            Cardinality::One => count <= 1,
            Cardinality::Many => true,
        }
    }
}

/// Direction metadata for an endpoint.
#[derive(Clone, Copy, Debug, PartialEq, Eq)]
pub struct Direction {
    schema_id: SchemaId,
    cardinality: Cardinality,
}

impl Direction {
    /// The schema identifier, as a sequence of bytes.
    pub closed spec fn schema(&self) -> Seq<u8> {
        self.schema_id@
    }

    /// The cardinality constraint.
    pub closed spec fn card(&self) -> Cardinality {
        self.cardinality
    }

    /// Create a new direction with the supplied schema and cardinality.
    pub fn new(schema_id: SchemaId, cardinality: Cardinality) -> (r: Self)
        ensures
            r.schema() == schema_id@,
            r.card() == cardinality,
    {
        Direction { schema_id, cardinality }
    }

    /// Schema identifier associated with this direction.
    pub fn schema_id(&self) -> (r: SchemaId)
        ensures
            r@ == self.schema(),
    {
        self.schema_id
    }

    /// Cardinality constraint for this direction.
    pub fn cardinality(&self) -> (r: Cardinality)
        ensures
            r == self.card(),
    {
        self.cardinality
    }

    /// Two directions with the same schema and cardinality are the same.
    pub proof fn lemma_view_determines(a: Direction, b: Direction)
        requires
            a.schema() == b.schema(),
            a.card() == b.card(),
        ensures
            a == b,
    {
        assert(a.schema_id =~= b.schema_id) by {
            assert(a.schema_id@ == b.schema_id@);
        }
    }
}

/// Input/output directions for an endpoint.
#[derive(Clone, Copy, Debug, PartialEq, Eq)]
pub struct EndpointDirections {
    input: Direction,
    output: Direction,
}

impl EndpointDirections {
    /// The inbound direction.
    pub closed spec fn input_dir(&self) -> Direction {
        self.input
    }

    /// The outbound direction.
    pub closed spec fn output_dir(&self) -> Direction {
        self.output
    }

    /// Create a new pair of input/output directions.
    pub fn new(input: Direction, output: Direction) -> (r: Self)
        ensures
            r.input_dir() == input,
            r.output_dir() == output,
    {
        EndpointDirections { input, output }
    }

    /// Inbound direction for the endpoint.
    pub fn input(&self) -> (r: &Direction)
        ensures
            *r == self.input_dir(),
    {
        &self.input
    }

    /// Outbound direction for the endpoint.
    pub fn output(&self) -> (r: &Direction)
        ensures
            *r == self.output_dir(),
    {
        &self.output
    }

    /// Two endpoint directions with equal parts are the same.
    pub proof fn lemma_parts_determine(a: EndpointDirections, b: EndpointDirections)
        requires
            a.input_dir() == b.input_dir(),
            a.output_dir() == b.output_dir(),
        ensures
            a == b,
    {
    }
}

/// Inbound wiring update.
#[derive(Clone, Copy, Debug, PartialEq, Eq, Structural)]
pub struct WiringIngress {
    /// Endpoint producing this flow.
    pub from: EndpointId,
    /// Shared channel handle used for this flow.
    pub channel: u64,
}

/// Outbound wiring update.
#[derive(Clone, Copy, Debug, PartialEq, Eq, Structural)]
pub struct WiringEgress {
    /// Endpoint consuming this flow.
    pub to: EndpointId,
    /// Shared channel handle used for this flow.
    pub channel: u64,
}

/// Switchboard protocol message envelope.
#[derive(Clone, Debug, PartialEq, Eq)]
pub enum Message {
    /// Register a new endpoint with the switchboard.
    RegisterRequest {
        /// Correlation identifier supplied by the client.
        request_id: u64,
        /// Endpoint directions.
        directions: EndpointDirections,
        /// Shared handle for the client's update channel.
        updates_channel: u64,
    },
    /// Connect two endpoints.
    ConnectRequest {
        /// Correlation identifier supplied by the client.
        request_id: u64,
        /// Producer endpoint identifier.
        from: EndpointId,
        /// Consumer endpoint identifier.
        to: EndpointId,
        /// Shared handle for the client's update channel.
        reply_channel: u64,
    },
    /// Register response carrying the allocated endpoint id.
    ResponseRegister {
        /// Correlation identifier supplied by the client.
        request_id: u64,
        /// Endpoint identifier assigned by the switchboard.
        endpoint_id: EndpointId,
    },
    /// Empty response acknowledging a request.
    ResponseOk {
        /// Correlation identifier supplied by the client.
        request_id: u64,
    },
    /// Error response for a request.
    ResponseError {
        /// Correlation identifier supplied by the client.
        request_id: u64,
        /// Error message supplied by the switchboard.
        message: String,
    },
    /// Wiring update for a single endpoint.
    WiringUpdate {
        /// Endpoint identifier receiving this update.
        endpoint_id: EndpointId,
        /// Inbound connections.
        inbound: Vec<WiringIngress>,
        /// Outbound connections.
        outbound: Vec<WiringEgress>,
    },
}

/// The correlation id a message carries on the wire; wiring updates carry
/// none and travel with id 0.
pub open spec fn wire_request_id(m: Message) -> u64 {
    match m {
        Message::RegisterRequest { request_id, .. } => request_id,
        Message::ConnectRequest { request_id, .. } => request_id,
        Message::ResponseRegister { request_id, .. } => request_id,
        Message::ResponseOk { request_id } => request_id,
        Message::ResponseError { request_id, .. } => request_id,
        Message::WiringUpdate { .. } => 0,
    }
}

/// The correlation id of a message (0 for wiring updates).
pub fn request_id_for(message: &Message) -> (r: u64)
    ensures
        r == wire_request_id(*message),
{
    match message {
        Message::RegisterRequest { request_id, .. } => *request_id,
        Message::ConnectRequest { request_id, .. } => *request_id,
        Message::ResponseRegister { request_id, .. } => *request_id,
        Message::ResponseOk { request_id } => *request_id,
        Message::ResponseError { request_id, .. } => *request_id,
        Message::WiringUpdate { .. } => 0,
    }
}

/// Errors produced while encoding or decoding switchboard messages.
#[derive(Clone, Debug, PartialEq, Eq)]
pub enum ProtocolError {
    /// Flatbuffers payload failed to verify; the verifier's description.
    InvalidFlatbuffer(String),
    /// Message payload was not present.
    MissingPayload,
    /// Message payload type is unsupported.
    UnknownPayload,
    /// Schema identifier was missing.
    MissingSchemaId,
    /// Schema identifier was not 16 bytes.
    InvalidSchemaId,
    /// Cardinality variant was not recognised.
    UnknownCardinality,
    /// Switchboard message identifier did not match.
    InvalidIdentifier,
}

/// The description of each protocol error.
pub open spec fn protocol_error_text(e: ProtocolError) -> Seq<char> {
    match e {
        ProtocolError::InvalidFlatbuffer(m) => "invalid flatbuffer: "@ + m@,
        ProtocolError::MissingPayload => "switchboard message missing payload"@,
        ProtocolError::UnknownPayload => "unknown switchboard payload type"@,
        ProtocolError::MissingSchemaId => "missing schema identifier"@,
        ProtocolError::InvalidSchemaId => "schema identifier length mismatch"@,
        ProtocolError::UnknownCardinality => "unknown cardinality variant"@,
        ProtocolError::InvalidIdentifier => "invalid switchboard message identifier"@,
    }
}

impl ProtocolError {
    /// The human-readable description of the error.
    pub fn message(&self) -> (r: String)
        ensures
            r@ == protocol_error_text(*self),
    {
        match self {
            ProtocolError::InvalidFlatbuffer(m) => crate::text::concat(
                "invalid flatbuffer: ",
                m.as_str(),
            ),
            ProtocolError::MissingPayload => "switchboard message missing payload".to_owned(),
            ProtocolError::UnknownPayload => "unknown switchboard payload type".to_owned(),
            ProtocolError::MissingSchemaId => "missing schema identifier".to_owned(),
            ProtocolError::InvalidSchemaId => "schema identifier length mismatch".to_owned(),
            ProtocolError::UnknownCardinality => "unknown cardinality variant".to_owned(),
            ProtocolError::InvalidIdentifier => "invalid switchboard message identifier".to_owned(),
        }
    }
}

// ---------------------------------------------------------------------------
// Table form.
// ---------------------------------------------------------------------------
/// Cardinality codes of the schema's `Cardinality` enum.
pub const CARDINALITY_ZERO: u8 = 0;

/// Code of `Cardinality::One`.
pub const CARDINALITY_ONE: u8 = 1;

/// Code of `Cardinality::Many`.
pub const CARDINALITY_MANY: u8 = 2;

/// The contents of a `Direction` table.
#[derive(Clone, Debug, PartialEq, Eq)]
pub struct DirectionTable {
    /// The `schema_id` byte vector, when present.
    pub schema_id: Option<Vec<u8>>,
    /// The cardinality code.
    pub cardinality: u8,
}

/// The contents of an `EndpointDirections` table.
#[derive(Clone, Debug, PartialEq, Eq)]
pub struct DirectionsTable {
    /// The `input` table, when present.
    pub input: Option<DirectionTable>,
    /// The `output` table, when present.
    pub output: Option<DirectionTable>,
}

/// The payload union of a `SwitchboardMessage` table: which member it holds
/// and that member's fields. A member whose table is absent is `None`.
#[derive(Clone, Debug, PartialEq, Eq)]
pub enum PayloadTable {
    /// No payload.
    Empty,
    /// A `RegisterRequest` member.
    RegisterRequest(Option<(Option<DirectionsTable>, u64)>),
    /// A `ConnectRequest` member: from, to, reply channel.
    ConnectRequest(Option<(u32, u32, u64)>),
    /// A `RegisterResponse` member: the endpoint id.
    RegisterResponse(Option<u32>),
    /// An `OkResponse` member.
    OkResponse,
    /// An `ErrorResponse` member: its message string, when present.
    ErrorResponse(Option<Option<String>>),
    /// A `WiringUpdate` member: endpoint id, inbound and outbound vectors.
    WiringUpdate(Option<(u32, Option<Vec<WiringIngress>>, Option<Vec<WiringEgress>>)>),
    /// A member type this protocol does not know.
    Unknown(u8),
}

/// The contents of a `SwitchboardMessage` root table.
#[derive(Clone, Debug, PartialEq, Eq)]
pub struct MessageTable {
    /// The correlation identifier.
    pub request_id: u64,
    /// The payload union.
    pub payload: PayloadTable,
}

/// The cardinality a code names, if any.
pub open spec fn card_of_code(code: u8) -> Option<Cardinality> {
    if code == CARDINALITY_ZERO {
        Some(Cardinality::Zero)
    } else if code == CARDINALITY_ONE {
        Some(Cardinality::One)
    } else if code == CARDINALITY_MANY {
        Some(Cardinality::Many)
    } else {
        None
    }
}

/// The code of a cardinality.
pub open spec fn code_of_card(c: Cardinality) -> u8 {
    match c {
        Cardinality::Zero => CARDINALITY_ZERO,
        Cardinality::One => CARDINALITY_ONE,
        Cardinality::Many => CARDINALITY_MANY,
    }
}

/// Maps a cardinality code to a cardinality.
pub fn cardinality_from_code(code: u8) -> (r: Result<Cardinality, ProtocolError>)
    ensures
        match card_of_code(code) {
            Some(c) => r == Ok::<Cardinality, ProtocolError>(c),
            None => r == Err::<Cardinality, ProtocolError>(ProtocolError::UnknownCardinality),
        },
{
    if code == CARDINALITY_ZERO {
        Ok(Cardinality::Zero)
    } else if code == CARDINALITY_ONE {
        Ok(Cardinality::One)
    } else if code == CARDINALITY_MANY {
        Ok(Cardinality::Many)
    } else {
        Err(ProtocolError::UnknownCardinality)
    }
}

/// Maps a cardinality to its code.
pub fn cardinality_code(c: Cardinality) -> (r: u8)
    ensures
        r == code_of_card(c),
{
    match c {
        Cardinality::Zero => CARDINALITY_ZERO,
        Cardinality::One => CARDINALITY_ONE,
        Cardinality::Many => CARDINALITY_MANY,
    }
}

/// The schema identifier a `schema_id` vector denotes.
pub open spec fn schema_of(v: Option<Vec<u8>>) -> Result<Seq<u8>, ProtocolError> {
    match v {
        None => Err(ProtocolError::MissingSchemaId),
        Some(bytes) => if bytes@.len() != 16 {
            Err(ProtocolError::InvalidSchemaId)
        } else {
            Ok(bytes@)
        },
    }
}

/// Reads a schema identifier: present and exactly 16 bytes.
pub fn decode_schema_id(schema_id: &Option<Vec<u8>>) -> (r: Result<SchemaId, ProtocolError>)
    ensures
        match schema_of(*schema_id) {
            Ok(s) => r matches Ok(id) && id@ == s,
            Err(e) => r == Err::<SchemaId, ProtocolError>(e),
        },
{
    let vec = match schema_id {
        Some(vec) => vec,
        None => return Err(ProtocolError::MissingSchemaId),
    };
    if vec.len() != 16 {
        return Err(ProtocolError::InvalidSchemaId);
    }
    let mut out = [0u8; 16];
    let mut idx: usize = 0;
    while idx < 16
        invariant
            vec@.len() == 16,
            out@.len() == 16,
            idx <= 16,
            forall|j: int| 0 <= j < idx ==> out@[j] == vec@[j],
        decreases 16 - idx,
    {
        out.set(idx, vec[idx]);
        idx = idx + 1;
    }
    assert(out@ =~= vec@);
    Ok(out)
}

/// The direction a `Direction` table denotes.
pub open spec fn direction_of(t: DirectionTable) -> Result<(Seq<u8>, Cardinality), ProtocolError> {
    match schema_of(t.schema_id) {
        Err(e) => Err(e),
        Ok(s) => match card_of_code(t.cardinality) {
            None => Err(ProtocolError::UnknownCardinality),
            Some(c) => Ok((s, c)),
        },
    }
}

/// Reads a `Direction` table.
pub fn decode_direction(direction: &DirectionTable) -> (r: Result<Direction, ProtocolError>)
    ensures
        match direction_of(*direction) {
            Ok((s, c)) => r matches Ok(d) && d.schema() == s && d.card() == c,
            Err(e) => r == Err::<Direction, ProtocolError>(e),
        },
{
    let schema_id = match decode_schema_id(&direction.schema_id) {
        Ok(id) => id,
        Err(e) => return Err(e),
    };
    let cardinality = match cardinality_from_code(direction.cardinality) {
        Ok(c) => c,
        Err(e) => return Err(e),
    };
    Ok(Direction::new(schema_id, cardinality))
}

/// The directions an `EndpointDirections` table denotes: input first, then
/// output, each of which must be present.
pub open spec fn directions_of(t: DirectionsTable) -> Result<
    ((Seq<u8>, Cardinality), (Seq<u8>, Cardinality)),
    ProtocolError,
> {
    match t.input {
        None => Err(ProtocolError::MissingPayload),
        Some(i) => match direction_of(i) {
            Err(e) => Err(e),
            Ok(input) => match t.output {
                None => Err(ProtocolError::MissingPayload),
                Some(o) => match direction_of(o) {
                    Err(e) => Err(e),
                    Ok(output) => Ok((input, output)),
                },
            },
        },
    }
}

/// Whether decoded directions match a pair of views.
pub open spec fn directions_match(
    d: EndpointDirections,
    v: ((Seq<u8>, Cardinality), (Seq<u8>, Cardinality)),
) -> bool {
    &&& d.input_dir().schema() == v.0.0
    &&& d.input_dir().card() == v.0.1
    &&& d.output_dir().schema() == v.1.0
    &&& d.output_dir().card() == v.1.1
}

/// Reads an `EndpointDirections` table.
pub fn decode_directions(directions: &DirectionsTable) -> (r: Result<
    EndpointDirections,
    ProtocolError,
>)
    ensures
        match directions_of(*directions) {
            Ok(v) => r matches Ok(d) && directions_match(d, v),
            Err(e) => r == Err::<EndpointDirections, ProtocolError>(e),
        },
{
    let input = match &directions.input {
        Some(table) => match decode_direction(table) {
            Ok(d) => d,
            Err(e) => return Err(e),
        },
        None => return Err(ProtocolError::MissingPayload),
    };
    let output = match &directions.output {
        Some(table) => match decode_direction(table) {
            Ok(d) => d,
            Err(e) => return Err(e),
        },
        None => return Err(ProtocolError::MissingPayload),
    };
    Ok(EndpointDirections::new(input, output))
}

/// The `Direction` table a direction is written as.
pub open spec fn direction_table_matches(d: Direction, t: DirectionTable) -> bool {
    &&& t.schema_id matches Some(v) && v@ == d.schema()
    &&& t.cardinality == code_of_card(d.card())
}

/// Writes a direction as a `Direction` table.
pub fn encode_direction(direction: &Direction) -> (r: DirectionTable)
    ensures
        direction_table_matches(*direction, r),
{
    let id = direction.schema_id();
    let mut bytes: Vec<u8> = Vec::new();
    let mut idx: usize = 0;
    while idx < 16
        invariant
            id@.len() == 16,
            idx <= 16,
            bytes@ == id@.subrange(0, idx as int),
        decreases 16 - idx,
    {
        bytes.push(id[idx]);
        assert(bytes@ =~= id@.subrange(0, idx + 1));
        idx = idx + 1;
    }
    assert(id@.subrange(0, 16) =~= id@);
    DirectionTable { schema_id: Some(bytes), cardinality: cardinality_code(direction.cardinality()) }
}

/// Writes endpoint directions as an `EndpointDirections` table.
pub fn encode_directions(directions: &EndpointDirections) -> (r: DirectionsTable)
    ensures
        r.input matches Some(i) && direction_table_matches(directions.input_dir(), i),
        r.output matches Some(o) && direction_table_matches(directions.output_dir(), o),
{
    let input = encode_direction(directions.input());
    let output = encode_direction(directions.output());
    DirectionsTable { input: Some(input), output: Some(output) }
}

/// The views of a vector of wiring entries.
pub open spec fn ingress_view(v: Option<Vec<WiringIngress>>) -> Seq<WiringIngress> {
    match v {
        Some(items) => items@,
        None => Seq::empty(),
    }
}

/// The views of a vector of wiring entries.
pub open spec fn egress_view(v: Option<Vec<WiringEgress>>) -> Seq<WiringEgress> {
    match v {
        Some(items) => items@,
        None => Seq::empty(),
    }
}

/// Whether message `m` is what the table contents `t` denote.
pub open spec fn message_denoted(t: MessageTable, m: Message) -> bool {
    match t.payload {
        PayloadTable::RegisterRequest(Some((Some(d), updates))) => match directions_of(d) {
            Ok(v) => m matches Message::RegisterRequest { request_id, directions, updates_channel }
                && request_id == t.request_id && directions_match(directions, v) && updates_channel
                == updates,
            Err(_) => false,
        },
        PayloadTable::ConnectRequest(Some((f, to_id, reply))) => m == Message::ConnectRequest {
            request_id: t.request_id,
            from: f,
            to: to_id,
            reply_channel: reply,
        },
        PayloadTable::RegisterResponse(Some(id)) => m == Message::ResponseRegister {
            request_id: t.request_id,
            endpoint_id: id,
        },
        PayloadTable::OkResponse => m == Message::ResponseOk { request_id: t.request_id },
        PayloadTable::ErrorResponse(Some(text)) => m matches Message::ResponseError {
            request_id,
            message,
        } && request_id == t.request_id && message@ == match text {
            Some(s) => s@,
            None => Seq::<char>::empty(),
        },
        PayloadTable::WiringUpdate(Some((id, inbound, outbound))) => m matches Message::WiringUpdate {
            endpoint_id,
            inbound: ins,
            outbound: outs,
        } && endpoint_id == id && ins@ == ingress_view(inbound) && outs@ == egress_view(outbound),
        _ => false,
    }
}

/// The error that table contents `t` decode to, if any.
pub open spec fn table_error(t: MessageTable) -> Option<ProtocolError> {
    match t.payload {
        PayloadTable::Empty => Some(ProtocolError::UnknownPayload),
        PayloadTable::Unknown(_) => Some(ProtocolError::UnknownPayload),
        PayloadTable::RegisterRequest(None) => Some(ProtocolError::MissingPayload),
        PayloadTable::RegisterRequest(Some((None, _))) => Some(ProtocolError::MissingPayload),
        PayloadTable::RegisterRequest(Some((Some(d), _))) => match directions_of(d) {
            Ok(_) => None,
            Err(e) => Some(e),
        },
        PayloadTable::ConnectRequest(None) => Some(ProtocolError::MissingPayload),
        PayloadTable::RegisterResponse(None) => Some(ProtocolError::MissingPayload),
        PayloadTable::ErrorResponse(None) => Some(ProtocolError::MissingPayload),
        PayloadTable::WiringUpdate(None) => Some(ProtocolError::MissingPayload),
        _ => None,
    }
}

/// Copies a vector of wiring entries.
fn copy_ingress_vec(vec: &Vec<WiringIngress>) -> (r: Vec<WiringIngress>)
    ensures
        r@ == vec@,
{
    let mut items: Vec<WiringIngress> = Vec::new();
    let mut k: usize = 0;
    while k < vec.len()
        invariant
            k <= vec@.len(),
            items@ == vec@.subrange(0, k as int),
        decreases vec@.len() - k,
    {
        items.push(vec[k]);
        assert(items@ =~= vec@.subrange(0, k + 1));
        k = k + 1;
    }
    assert(vec@.subrange(0, vec@.len() as int) =~= vec@);
    items
}

/// Copies a vector of wiring entries.
fn copy_egress_vec(vec: &Vec<WiringEgress>) -> (r: Vec<WiringEgress>)
    ensures
        r@ == vec@,
{
    let mut items: Vec<WiringEgress> = Vec::new();
    let mut k: usize = 0;
    while k < vec.len()
        invariant
            k <= vec@.len(),
            items@ == vec@.subrange(0, k as int),
        decreases vec@.len() - k,
    {
        items.push(vec[k]);
        assert(items@ =~= vec@.subrange(0, k + 1));
        k = k + 1;
    }
    assert(vec@.subrange(0, vec@.len() as int) =~= vec@);
    items
}

/// Copies wiring entries out of an optional vector (absent means none).
fn copy_ingress(v: &Option<Vec<WiringIngress>>) -> (r: Vec<WiringIngress>)
    ensures
        r@ == ingress_view(*v),
{
    match v {
        Some(vec) => copy_ingress_vec(vec),
        None => Vec::new(),
    }
}

/// Copies wiring entries out of an optional vector (absent means none).
fn copy_egress(v: &Option<Vec<WiringEgress>>) -> (r: Vec<WiringEgress>)
    ensures
        r@ == egress_view(*v),
{
    match v {
        Some(vec) => copy_egress_vec(vec),
        None => Vec::new(),
    }
}

/// A copy of a string.
fn copy_string(s: &String) -> (r: String)
    ensures
        r@ == s@,
{
    s.as_str().to_owned()
}

/// Turns the contents of a `SwitchboardMessage` table into a message:
/// a known payload member must be present with all of its required parts;
/// a missing error text reads as empty and missing wiring vectors as none.
pub fn decode_tables(table: &MessageTable) -> (r: Result<Message, ProtocolError>)
    ensures
        match table_error(*table) {
            Some(e) => r == Err::<Message, ProtocolError>(e),
            None => r matches Ok(m) && message_denoted(*table, m),
        },
{
    let request_id = table.request_id;
    match &table.payload {
        PayloadTable::RegisterRequest(member) => {
            let (directions, updates_channel) = match member {
                Some((Some(d), updates)) => (d, *updates),
                _ => return Err(ProtocolError::MissingPayload),
            };
            match decode_directions(directions) {
                Ok(directions) => Ok(Message::RegisterRequest { request_id, directions, updates_channel }),
                Err(e) => Err(e),
            }
        },
        PayloadTable::ConnectRequest(member) => match member {
            Some((from, to, reply_channel)) => Ok(
                Message::ConnectRequest { request_id, from: *from, to: *to, reply_channel: *reply_channel },
            ),
            None => Err(ProtocolError::MissingPayload),
        },
        PayloadTable::RegisterResponse(member) => match member {
            Some(endpoint_id) => Ok(Message::ResponseRegister { request_id, endpoint_id: *endpoint_id }),
            None => Err(ProtocolError::MissingPayload),
        },
        PayloadTable::OkResponse => Ok(Message::ResponseOk { request_id }),
        PayloadTable::ErrorResponse(member) => match member {
            Some(text) => {
                let message = match text {
                    Some(s) => copy_string(s),
                    None => String::new(),
                };
                Ok(Message::ResponseError { request_id, message })
            },
            None => Err(ProtocolError::MissingPayload),
        },
        PayloadTable::WiringUpdate(member) => match member {
            Some((endpoint_id, inbound, outbound)) => {
                let inbound = copy_ingress(inbound);
                let outbound = copy_egress(outbound);
                Ok(Message::WiringUpdate { endpoint_id: *endpoint_id, inbound, outbound })
            },
            None => Err(ProtocolError::MissingPayload),
        },
        PayloadTable::Empty => Err(ProtocolError::UnknownPayload),
        PayloadTable::Unknown(_) => Err(ProtocolError::UnknownPayload),
    }
}

/// Whether table contents `t` are what message `m` is written as.
pub open spec fn message_written(m: Message, t: MessageTable) -> bool {
    &&& t.request_id == wire_request_id(m)
    &&& match m {
        Message::RegisterRequest { directions, updates_channel, .. } => match t.payload {
            PayloadTable::RegisterRequest(Some((Some(d), u))) => {
                &&& u == updates_channel
                &&& match d.input {
                    Some(i) => direction_table_matches(directions.input_dir(), i),
                    None => false,
                }
                &&& match d.output {
                    Some(o) => direction_table_matches(directions.output_dir(), o),
                    None => false,
                }
            },
            _ => false,
        },
        Message::ConnectRequest { from, to, reply_channel, .. } => t.payload
            == PayloadTable::ConnectRequest(Some((from, to, reply_channel))),
        Message::ResponseRegister { endpoint_id, .. } => t.payload == PayloadTable::RegisterResponse(
            Some(endpoint_id),
        ),
        Message::ResponseOk { .. } => t.payload == PayloadTable::OkResponse,
        Message::ResponseError { message, .. } => t.payload matches PayloadTable::ErrorResponse(
            Some(Some(text)),
        ) && text@ == message@,
        Message::WiringUpdate { endpoint_id, inbound, outbound } => t.payload
            matches PayloadTable::WiringUpdate(Some((id, Some(ins), Some(outs)))) && id == endpoint_id
            && ins@ == inbound@ && outs@ == outbound@,
    }
}

/// The table contents a message is written as: every member and vector is
/// present, and wiring updates carry request id 0.
pub fn encode_tables(message: &Message) -> (r: MessageTable)
    ensures
        message_written(*message, r),
{
    match message {
        Message::RegisterRequest { request_id, directions, updates_channel } => MessageTable {
            request_id: *request_id,
            payload: PayloadTable::RegisterRequest(
                Some((Some(encode_directions(directions)), *updates_channel)),
            ),
        },
        Message::ConnectRequest { request_id, from, to, reply_channel } => MessageTable {
            request_id: *request_id,
            payload: PayloadTable::ConnectRequest(Some((*from, *to, *reply_channel))),
        },
        Message::ResponseRegister { request_id, endpoint_id } => MessageTable {
            request_id: *request_id,
            payload: PayloadTable::RegisterResponse(Some(*endpoint_id)),
        },
        Message::ResponseOk { request_id } => MessageTable {
            request_id: *request_id,
            payload: PayloadTable::OkResponse,
        },
        Message::ResponseError { request_id, message } => MessageTable {
            request_id: *request_id,
            payload: PayloadTable::ErrorResponse(Some(Some(copy_string(message)))),
        },
        Message::WiringUpdate { endpoint_id, inbound, outbound } => {
            let ins = copy_ingress_vec(inbound);
            let outs = copy_egress_vec(outbound);
            MessageTable {
                request_id: 0,
                payload: PayloadTable::WiringUpdate(Some((*endpoint_id, Some(ins), Some(outs)))),
            }
        },
    }
}

/// Whether two messages carry the same content (strings and vectors
/// compared by their views).
pub open spec fn same_message(a: Message, b: Message) -> bool {
    match (a, b) {
        (
            Message::RegisterRequest { request_id: r1, directions: d1, updates_channel: u1 },
            Message::RegisterRequest { request_id: r2, directions: d2, updates_channel: u2 },
        ) => r1 == r2 && d1 == d2 && u1 == u2,
        (Message::ResponseError { request_id: r1, message: m1 }, Message::ResponseError {
            request_id: r2,
            message: m2,
        }) => r1 == r2 && m1@ == m2@,
        (
            Message::WiringUpdate { endpoint_id: e1, inbound: i1, outbound: o1 },
            Message::WiringUpdate { endpoint_id: e2, inbound: i2, outbound: o2 },
        ) => e1 == e2 && i1@ == i2@ && o1@ == o2@,
        _ => a == b,
    }
}

/// Writing a message and reading the tables back gives the same message,
/// except that a wiring update comes back with its request id dropped
/// (wiring updates carry none): every message round-trips.
pub proof fn lemma_tables_round_trip(m: Message, t: MessageTable, back: Message)
    requires
        message_written(m, t),
        table_error(t) is None ==> message_denoted(t, back),
    ensures
        table_error(t) is None,
        same_message(m, back),
{
    match m {
        Message::RegisterRequest { directions, .. } => {
            match t.payload {
                PayloadTable::RegisterRequest(Some((Some(d), _))) => {
                    let i = d.input->Some_0;
                    let o = d.output->Some_0;
                    assert(schema_of(i.schema_id) == Ok::<Seq<u8>, ProtocolError>(
                        directions.input_dir().schema(),
                    )) by {
                        Direction::lemma_schema_len(directions.input_dir());
                    }
                    assert(schema_of(o.schema_id) == Ok::<Seq<u8>, ProtocolError>(
                        directions.output_dir().schema(),
                    )) by {
                        Direction::lemma_schema_len(directions.output_dir());
                    }
                    let bd = back->RegisterRequest_directions;
                    Direction::lemma_view_determines(bd.input_dir(), directions.input_dir());
                    Direction::lemma_view_determines(bd.output_dir(), directions.output_dir());
                    EndpointDirections::lemma_parts_determine(bd, directions);
                },
                _ => {},
            }
        },
        _ => {},
    }
}

impl Direction {
    /// A schema identifier is sixteen bytes long.
    pub proof fn lemma_schema_len(d: Direction)
        ensures
            d.schema().len() == 16,
    {
    }
}

/// True when the buffer carries the four-byte file identifier `ident` at
/// offset 4, just after the root offset.
pub open spec fn has_identifier(bytes: Seq<u8>, ident: Seq<u8>) -> bool {
    bytes.len() >= 8 && bytes.subrange(4, 8) == ident
}

/// True when a buffer carries the switchboard's file identifier.
pub fn switchboard_message_buffer_has_identifier(bytes: &[u8]) -> (r: bool)
    ensures
        r == has_identifier(bytes@, SWITCHBOARD_IDENTIFIER@),
{
    if bytes.len() < 8 {
        return false;
    }
    let ident = SWITCHBOARD_IDENTIFIER;
    let r = bytes[4] == ident[0] && bytes[5] == ident[1] && bytes[6] == ident[2] && bytes[7]
        == ident[3];
    proof {
        if r {
            assert(bytes@.subrange(4, 8) =~= ident@);
        } else {
            if bytes@.subrange(4, 8) == ident@ {
                assert(bytes@.subrange(4, 8)[0] == ident@[0]);
                assert(bytes@.subrange(4, 8)[1] == ident@[1]);
                assert(bytes@.subrange(4, 8)[2] == ident@[2]);
                assert(bytes@.subrange(4, 8)[3] == ident@[3]);
            }
        }
    }
    r
}

/// The table form writes the schema's cardinality codes: a direction of
/// cardinality zero is written with `CARDINALITY_ZERO`, one with
/// `CARDINALITY_ONE` and many with `CARDINALITY_MANY`, and the table of a
/// direction reads back as that direction.
pub proof fn lemma_direction_table_uses_schema_codes(d: Direction, t: DirectionTable)
    requires
        direction_table_matches(d, t),
    ensures
        d.card() == Cardinality::Zero ==> t.cardinality == CARDINALITY_ZERO,
        d.card() == Cardinality::One ==> t.cardinality == CARDINALITY_ONE,
        d.card() == Cardinality::Many ==> t.cardinality == CARDINALITY_MANY,
        direction_of(t) == Ok::<(Seq<u8>, Cardinality), ProtocolError>((d.schema(), d.card())),
{
}

/// A table with a well-formed schema identifier reads its cardinality code
/// as the schema defines it: `CARDINALITY_ZERO` as zero, `CARDINALITY_ONE`
/// as one, `CARDINALITY_MANY` as many, and any other code is refused.
pub proof fn lemma_schema_codes_read_back(t: DirectionTable)
    requires
        schema_of(t.schema_id) is Ok,
    ensures
        t.cardinality == CARDINALITY_ZERO ==> direction_of(t) == Ok::<(Seq<u8>, Cardinality), ProtocolError>(
            (schema_of(t.schema_id)->Ok_0, Cardinality::Zero),
        ),
        t.cardinality == CARDINALITY_ONE ==> direction_of(t) == Ok::<(Seq<u8>, Cardinality), ProtocolError>(
            (schema_of(t.schema_id)->Ok_0, Cardinality::One),
        ),
        t.cardinality == CARDINALITY_MANY ==> direction_of(t) == Ok::<(Seq<u8>, Cardinality), ProtocolError>(
            (schema_of(t.schema_id)->Ok_0, Cardinality::Many),
        ),
        t.cardinality > CARDINALITY_MANY ==> direction_of(t) == Err::<(Seq<u8>, Cardinality), ProtocolError>(
            ProtocolError::UnknownCardinality,
        ),
        CARDINALITY_ZERO == 0 && CARDINALITY_ONE == 1 && CARDINALITY_MANY == 2,
{
}

} // verus!
