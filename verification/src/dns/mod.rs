//! DNS protocol types for typed name resolution: a [`DnsQuery`] carries a
//! name and record type, a [`DnsResponse`] carries a typed outcome and the
//! resolved IP literals. The [`wire`] codec bridges them to real DNS
//! messages.
use vstd::prelude::*;

pub mod wire;

verus! {

/// Well-known discovery URI registered by the DNS connector at boot, under
/// the root (empty) tenant.
pub const RESOLVE_URI: &'static str = "sel:///dns/resolve";

/// DNS resource record types carried by typed queries and responses.
///
/// Values follow the IANA DNS RR TYPE registry (A = 1, CNAME = 5, AAAA = 28).
#[derive(Debug, Clone, Copy, PartialEq, Eq, Structural)]
pub enum DnsRecordType {
    /// IPv4 address record.
    A,
    /// Canonical name alias record.
    Cname,
    /// IPv6 address record.
    Aaaa,
}

/// Resolution outcomes; upstream failure modes surface as distinct outcomes.
#[derive(Debug, Clone, Copy, PartialEq, Eq, Structural)]
pub enum DnsOutcome {
    /// The name resolved; [`DnsResponse::addresses`] carries the answers.
    Success,
    /// The upstream resolver answered NXDOMAIN.
    NxDomain,
    /// The upstream resolver did not answer within the timeout.
    Timeout,
    /// The upstream resolver answered with a truncated (TC) message.
    Truncated,
    /// The upstream resolver answered SERVFAIL.
    ServFail,
    /// The upstream resolver refused the query.
    Refused,
    /// The query could not be completed: forwarding failed, the reply was
    /// undecodable, or the upstream returned an unhandled error code.
    Upstream,
}

/// A typed name-resolution query.
#[derive(Debug, Clone, PartialEq)]
pub struct DnsQuery {
    /// The name to resolve.
    pub name: String,
    /// The record type to query for.
    pub record_type: DnsRecordType,
}

/// A typed name-resolution response carrying resolved IP literals.
#[derive(Debug, Clone, PartialEq)]
pub struct DnsResponse {
    /// The resolution outcome.
    pub outcome: DnsOutcome,
    /// Resolved IP literals (empty for non-`Ok` outcomes).
    pub addresses: Vec<String>,
}

impl DnsQuery {
    /// A query for `name` with the given record type.
    pub fn new(name: String, record_type: DnsRecordType) -> (r: Self)
        ensures
            r.name@ == name@,
            r.record_type == record_type,
    {
        DnsQuery { name, record_type }
    }

    /// Convenience constructor taking the name as a string slice.
    pub fn from_str(name: &str, record_type: DnsRecordType) -> (r: Self)
        ensures
            r.name@ == name@,
            r.record_type == record_type,
    {
        Self::new(name.to_owned(), record_type)
    }
}

impl DnsResponse {
    /// A response with the given outcome and addresses.
    pub fn new(outcome: DnsOutcome, addresses: Vec<String>) -> (r: Self)
        ensures
            r.outcome == outcome,
            r.addresses@ == addresses@,
    {
        DnsResponse { outcome, addresses }
    }

    /// Builds a successful response from resolved IP literals.
    pub fn ok(addresses: Vec<String>) -> (r: Self)
        ensures
            r.outcome == DnsOutcome::Success,
            r.addresses@ == addresses@,
    {
        Self::new(DnsOutcome::Success, addresses)
    }

    /// Builds a failure response for a non-`Ok` outcome: no addresses.
    pub fn failure(outcome: DnsOutcome) -> (r: Self)
        ensures
            r.outcome == outcome,
            r.addresses@.len() == 0,
    {
        Self::new(outcome, Vec::new())
    }
}

} // verus!
