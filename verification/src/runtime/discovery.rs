//! Tier-1 discovery registration URIs.
//!
//! The runtime publishes every allocated resource as a volatile event on
//! the runtime-to-discovery feed, named by a typed URI
//! `sel://<tenant>/<type>/<id>` with a singular type segment; the platform
//! tenant has the empty name.
use vstd::prelude::*;

use crate::text::{decimal_text, push_str, push_u64, string_from_chars};

verus! {

/// The typed registration URI of a resource.
pub open spec fn registration_uri(tenant: Seq<char>, segment: Seq<char>, id: u64) -> Seq<char> {
    "sel://"@ + tenant + "/"@ + segment + "/"@ + decimal_text(id as nat)
}

/// The registration URI of a typed resource, given the singular type
/// segment of its resource class: `sel://<tenant>/<segment>/<id>`.
pub fn typed_registration_uri(tenant: &str, segment: &str, id: u64) -> (r: String)
    ensures
        r@ == registration_uri(tenant@, segment@, id),
{
    let mut out: Vec<char> = Vec::new();
    push_str(&mut out, "sel://");
    push_str(&mut out, tenant);
    push_str(&mut out, "/");
    push_str(&mut out, segment);
    push_str(&mut out, "/");
    push_u64(&mut out, id);
    assert(out@ =~= registration_uri(tenant@, segment@, id));
    string_from_chars(&out)
}

/// The registration URI of a process node: `sel://<tenant>/proc/<id>`.
pub fn process_registration_uri(tenant: &str, process_id: u64) -> (r: String)
    ensures
        r@ == registration_uri(tenant@, "proc"@, process_id),
{
    typed_registration_uri(tenant, "proc", process_id)
}

/// The registration URI of a host connection queue:
/// `sel://<tenant>/queue/<id>`.
pub fn queue_registration_uri(tenant: &str, queue_id: u64) -> (r: String)
    ensures
        r@ == registration_uri(tenant@, "queue"@, queue_id),
{
    typed_registration_uri(tenant, "queue", queue_id)
}

/// The registration URI of an allocated region: `sel://<tenant>/region/<id>`.
pub fn region_registration_uri(tenant: &str, region_id: u64) -> (r: String)
    ensures
        r@ == registration_uri(tenant@, "region"@, region_id),
{
    typed_registration_uri(tenant, "region", region_id)
}

} // verus!
