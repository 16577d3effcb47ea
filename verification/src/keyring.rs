//! Host-held PKI keyring backing the certificate-signing hostcalls.
//!
//! The host keeps a depth-3 hierarchy: an offline root (retained for
//! operator bootstrap only), an online intermediate that signs tenant CAs,
//! and per-tenant CA keys that sign user leaf certificates. No read path
//! exposes private-key material: the only private-key users are the signing
//! methods, which rebuild an `rcgen::KeyPair` from the stored PKCS#8 DER and
//! drop it after signing.
//!
//! Tenant CA keys live behind a pluggable [`CaStore`]; [`InMemoryCaStore`]
//! is the in-process default.
use vstd::prelude::*;

use crate::pki::{
    ca_cert_parses, generate_p256_key, issued_by, issuer_from_ca_cert, issuer_from_params,
    key_der_parses, made_from, new_params, now_unix_nanos, parse_key_pair, parse_spki,
    public_key_of, push_extended_usage, push_key_usage, rcgen_error_text, self_sign,
    set_validity, sign_key, sign_spki, signed_with, spki_key, spki_parses, CertParams,
};
use crate::text::{concat, push_str, string_from_chars};

verus! {

// ---------------------------------------------------------------------
// Certificate profiles.
// ---------------------------------------------------------------------
/// Nanoseconds per second.
pub const NANOS_PER_SECOND: i128 = 1_000_000_000;

/// The earliest instant a certificate may carry: the start of year 0, as
/// Unix nanoseconds (certificate times outside years 0 to 9999 cannot be
/// encoded).
pub const EARLIEST_INSTANT_NANOS: i128 = -62_167_219_200_000_000_000;

/// The latest instant a certificate may carry: the last nanosecond of year
/// 9999, as Unix nanoseconds.
pub const LATEST_INSTANT_NANOS: i128 = 253_402_300_799_999_999_999;

/// How long before signing a leaf starts to be valid (five minutes).
pub const LEAF_BACKDATE_NANOS: i128 = 300_000_000_000;

/// Default lifetime of a user leaf certificate (one day).
pub const DEFAULT_LEAF_TTL_NANOS: i128 = 86_400_000_000_000;

/// An instant that a certificate can carry.
pub open spec fn valid_instant(t: i128) -> bool {
    EARLIEST_INSTANT_NANOS <= t <= LATEST_INSTANT_NANOS
}

/// A key usage a certificate grants.
#[derive(Clone, Copy, Debug, PartialEq, Eq, Structural)]
pub enum KeyUsage {
    /// May sign certificates.
    KeyCertSign,
    /// May produce digital signatures.
    DigitalSignature,
}

/// An extended key usage a certificate grants.
#[derive(Clone, Copy, Debug, PartialEq, Eq, Structural)]
pub enum ExtendedUsage {
    /// TLS client authentication.
    ClientAuth,
}

/// The basic constraints a certificate carries.
#[derive(Clone, Copy, Debug, PartialEq, Eq, Structural)]
pub enum CaConstraint {
    /// Not a certificate authority.
    NotCa,
    /// A certificate authority without a path length constraint.
    Unconstrained,
}

/// What a certificate says of its subject.
#[derive(Clone, Debug)]
pub struct CertProfile {
    /// The subject's common name.
    pub common_name: String,
    /// The basic constraints.
    pub ca: CaConstraint,
    /// Whether the authority key identifier extension is added.
    pub authority_key_identifier: bool,
    /// The key usages, in order.
    pub key_usages: Vec<KeyUsage>,
    /// The extended key usages, in order.
    pub extended_usages: Vec<ExtendedUsage>,
    /// The validity window, as Unix nanoseconds, if it is set.
    pub validity: Option<(i128, i128)>,
}

/// Parameters for a CA certificate: unconstrained CA basic constraints,
/// key-cert-sign and digital signature, and the authority key identifier
/// extension.
pub fn ca_profile(common_name: &str) -> (r: CertProfile)
    ensures
        r@ == ca_view(common_name@),
{
    let mut key_usages: Vec<KeyUsage> = Vec::new();
    key_usages.push(KeyUsage::KeyCertSign);
    key_usages.push(KeyUsage::DigitalSignature);
    let extended_usages: Vec<ExtendedUsage> = Vec::new();
    assert(key_usages@ =~= seq![KeyUsage::KeyCertSign, KeyUsage::DigitalSignature]);
    assert(extended_usages@ =~= Seq::<ExtendedUsage>::empty());
    CertProfile {
        common_name: common_name.to_owned(),
        ca: CaConstraint::Unconstrained,
        authority_key_identifier: true,
        key_usages,
        extended_usages,
        validity: None,
    }
}

/// The common name of a tenant's CA.
pub open spec fn tenant_ca_name(tenant: Seq<char>) -> Seq<char> {
    "Selium Tenant CA "@ + tenant
}

/// The common name of a tenant's client leaf.
pub open spec fn client_name(tenant: Seq<char>) -> Seq<char> {
    "Selium Client "@ + tenant
}

/// Parameters for a user leaf: no CA bit, digital signature and client
/// authentication, the authority key identifier extension, valid over the
/// given window.
pub fn leaf_profile(tenant: &str, not_before: i128, not_after: i128) -> (r: CertProfile)
    ensures
        r@ == leaf_view(tenant@, not_before, not_after),
{
    let mut key_usages: Vec<KeyUsage> = Vec::new();
    key_usages.push(KeyUsage::DigitalSignature);
    let mut extended_usages: Vec<ExtendedUsage> = Vec::new();
    extended_usages.push(ExtendedUsage::ClientAuth);
    CertProfile {
        common_name: concat("Selium Client ", tenant),
        ca: CaConstraint::NotCa,
        authority_key_identifier: true,
        key_usages,
        extended_usages,
        validity: Some((not_before, not_after)),
    }
}

/// What a certificate says of its subject, as a value.
pub struct ProfileView {
    /// The subject's common name.
    pub common_name: Seq<char>,
    /// The basic constraints.
    pub ca: CaConstraint,
    /// Whether the authority key identifier extension is added.
    pub authority_key_identifier: bool,
    /// The key usages, in order.
    pub key_usages: Seq<KeyUsage>,
    /// The extended key usages, in order.
    pub extended_usages: Seq<ExtendedUsage>,
    /// The validity window, if it is set.
    pub validity: Option<(i128, i128)>,
}

impl View for CertProfile {
    type V = ProfileView;

    open spec fn view(&self) -> ProfileView {
        ProfileView {
            common_name: self.common_name@,
            ca: self.ca,
            authority_key_identifier: self.authority_key_identifier,
            key_usages: self.key_usages@,
            extended_usages: self.extended_usages@,
            validity: self.validity,
        }
    }
}

/// The profile of a CA certificate named `common_name`.
pub open spec fn ca_view(common_name: Seq<char>) -> ProfileView {
    ProfileView {
        common_name,
        ca: CaConstraint::Unconstrained,
        authority_key_identifier: true,
        key_usages: seq![KeyUsage::KeyCertSign, KeyUsage::DigitalSignature],
        extended_usages: Seq::empty(),
        validity: None,
    }
}

/// The profile of a tenant's client leaf valid from `not_before` to
/// `not_after`.
pub open spec fn leaf_view(tenant: Seq<char>, not_before: i128, not_after: i128) -> ProfileView {
    ProfileView {
        common_name: client_name(tenant),
        ca: CaConstraint::NotCa,
        authority_key_identifier: true,
        key_usages: seq![KeyUsage::DigitalSignature],
        extended_usages: seq![ExtendedUsage::ClientAuth],
        validity: Some((not_before, not_after)),
    }
}

/// The `rcgen` parameters of a profile.
fn certificate_params(profile: &CertProfile) -> (r: CertParams)
    requires
        profile.validity matches Some((b, a)) ==> valid_instant(b) && valid_instant(a),
    ensures
        r.spec_profile() == profile@,
{
    let base = CertProfile {
        common_name: profile.common_name.as_str().to_owned(),
        ca: profile.ca,
        authority_key_identifier: profile.authority_key_identifier,
        key_usages: Vec::new(),
        extended_usages: Vec::new(),
        validity: None,
    };
    let mut params = new_params(base);
    assert(profile.key_usages@.take(0) =~= Seq::<KeyUsage>::empty());
    let mut i: usize = 0;
    while i < profile.key_usages.len()
        invariant
            i <= profile.key_usages@.len(),
            params.spec_profile() == (ProfileView {
                key_usages: profile.key_usages@.take(i as int),
                extended_usages: Seq::empty(),
                validity: None,
                ..profile@
            }),
        decreases profile.key_usages@.len() - i,
    {
        push_key_usage(&mut params, profile.key_usages[i]);
        assert(profile.key_usages@.take(i + 1) =~= profile.key_usages@.take(i as int).push(
            profile.key_usages@[i as int],
        ));
        i = i + 1;
    }
    let mut j: usize = 0;
    assert(profile.extended_usages@.take(0) =~= Seq::<ExtendedUsage>::empty());
    while j < profile.extended_usages.len()
        invariant
            i == profile.key_usages@.len(),
            j <= profile.extended_usages@.len(),
            params.spec_profile() == (ProfileView {
                key_usages: profile.key_usages@.take(i as int),
                extended_usages: profile.extended_usages@.take(j as int),
                validity: None,
                ..profile@
            }),
        decreases profile.extended_usages@.len() - j,
    {
        push_extended_usage(&mut params, profile.extended_usages[j]);
        assert(profile.extended_usages@.take(j + 1) =~= profile.extended_usages@.take(
            j as int,
        ).push(profile.extended_usages@[j as int]));
        j = j + 1;
    }
    assert(profile.key_usages@.take(i as int) =~= profile.key_usages@);
    assert(profile.extended_usages@.take(j as int) =~= profile.extended_usages@);
    match profile.validity {
        Some((not_before, not_after)) => set_validity(&mut params, not_before, not_after),
        None => {},
    }
    params
}

/// The validity window of a leaf signed at `now`: from five minutes before
/// `now` for one day, when both ends are instants a certificate can carry.
pub open spec fn leaf_window(now: i128) -> Option<(i128, i128)> {
    let not_before = now - LEAF_BACKDATE_NANOS;
    let not_after = not_before + DEFAULT_LEAF_TTL_NANOS;
    if valid_instant(not_before as i128) && valid_instant(not_after as i128) {
        Some((not_before as i128, not_after as i128))
    } else {
        None
    }
}

/// Whether `der` is a certificate made from the tenant's client leaf
/// profile for the public key `key`, over the window of a leaf signed at
/// some instant.
pub open spec fn issued_leaf(der: Seq<u8>, tenant: Seq<char>, key: Seq<u8>) -> bool {
    exists|now: i128|
        #[trigger] leaf_window(now) matches Some((not_before, not_after)) && made_from(
            der,
            leaf_view(tenant, not_before, not_after),
            key,
        )
}

/// The validity window of a leaf signed at `now`.
pub fn leaf_validity(now: i128) -> (r: Option<(i128, i128)>)
    ensures
        r == leaf_window(now),
{
    if now < EARLIEST_INSTANT_NANOS + LEAF_BACKDATE_NANOS || now > LATEST_INSTANT_NANOS
        + LEAF_BACKDATE_NANOS - DEFAULT_LEAF_TTL_NANOS {
        return None;
    }
    let not_before = now - LEAF_BACKDATE_NANOS;
    let not_after = not_before + DEFAULT_LEAF_TTL_NANOS;
    Some((not_before, not_after))
}

// ---------------------------------------------------------------------
// Errors and material.
// ---------------------------------------------------------------------
/// Errors of the keyring.
#[derive(Debug, Clone, PartialEq, Eq)]
pub enum KeyringError {
    /// No intermediate key material was configured.
    IntermediateMissing,
    /// Stored certificate material could not be parsed.
    InvalidMaterial(String),
    /// Generating a key or signing a certificate failed.
    Signing(String),
    /// The tenant has no CA key.
    TenantCaNotFound {
        /// The tenant that was asked for.
        tenant: String,
    },
    /// The subject public key could not be used.
    UnsupportedSubjectKey,
}

/// The description of each keyring error.
pub open spec fn keyring_error_text(e: KeyringError) -> Seq<char> {
    match e {
        KeyringError::IntermediateMissing => "no intermediate key material configured"@,
        KeyringError::InvalidMaterial(m) => "invalid certificate material: "@ + m@,
        KeyringError::Signing(m) => "signing failed: "@ + m@,
        KeyringError::TenantCaNotFound { tenant } => "tenant CA not found: "@ + tenant@,
        KeyringError::UnsupportedSubjectKey => "unsupported subject key algorithm"@,
    }
}

impl KeyringError {
    /// The human-readable description of the error.
    pub fn message(&self) -> (r: String)
        ensures
            r@ == keyring_error_text(*self),
    {
        match self {
            KeyringError::IntermediateMissing => "no intermediate key material configured".to_owned(),
            KeyringError::InvalidMaterial(m) => concat("invalid certificate material: ", m.as_str()),
            KeyringError::Signing(m) => concat("signing failed: ", m.as_str()),
            KeyringError::TenantCaNotFound { tenant } => concat(
                "tenant CA not found: ",
                tenant.as_str(),
            ),
            KeyringError::UnsupportedSubjectKey => "unsupported subject key algorithm".to_owned(),
        }
    }
}

/// `prefix` followed by the text of an `rcgen` error.
fn described(prefix: &str, e: &rcgen::Error) -> (r: String)
    ensures
        r@.len() >= prefix@.len(),
        r@.subrange(0, prefix@.len() as int) == prefix@,
{
    let text = rcgen_error_text(e);
    let r = concat(prefix, text.as_str());
    assert(r@.subrange(0, prefix@.len() as int) =~= prefix@);
    r
}

/// The result is an invalid-material error.
pub open spec fn invalid_material<T>(r: Result<T, KeyringError>) -> bool {
    match r {
        Err(KeyringError::InvalidMaterial(_)) => true,
        _ => false,
    }
}

/// The error says the tenant `t` has no CA.
pub open spec fn not_found_for(e: KeyringError, t: Seq<char>) -> bool {
    match e {
        KeyringError::TenantCaNotFound { tenant } => tenant@ == t,
        _ => false,
    }
}

/// Host-side PKI key material: a DER certificate plus its PKCS#8 private key.
#[derive(Debug, Clone)]
pub struct KeyMaterial {
    /// DER-encoded X.509 certificate (public).
    pub cert_der: Vec<u8>,
    /// DER-encoded PKCS#8 private key (never leaves the host).
    pub key_der: Vec<u8>,
}

/// Material needed to initialise the keyring at startup.
#[derive(Debug, Clone)]
pub struct KeyringBootstrap {
    /// Optional offline root, retained for operator bootstrap only.
    pub root: Option<KeyMaterial>,
    /// The online intermediate. `None` means the keyring cannot be
    /// initialised (the host would be unable to sign tenant CAs).
    pub intermediate: Option<KeyMaterial>,
}

impl Default for KeyringBootstrap {
    fn default() -> (r: Self)
        ensures
            r.root is None,
            r.intermediate is None,
    {
        KeyringBootstrap { root: None, intermediate: None }
    }
}

/// Retained material for a tenant CA: public anchor certificate and private
/// key. `cert_der` is the only observable half; `key_der` is read only for
/// signing.
#[derive(Debug, Clone)]
pub struct TenantCa {
    pub(crate) cert_der: Vec<u8>,
    pub(crate) key_der: Vec<u8>,
}

impl TenantCa {
    /// The anchor certificate bytes.
    pub closed spec fn spec_cert(&self) -> Seq<u8> {
        self.cert_der@
    }

    /// The private key bytes.
    pub closed spec fn spec_key(&self) -> Seq<u8> {
        self.key_der@
    }
}

/// Material that parses: a PKCS#8 key and a CA certificate.
pub open spec fn material_ok(m: KeyMaterial) -> bool {
    key_der_parses(m.key_der@) && ca_cert_parses(m.cert_der@)
}

/// Validates that stored material round-trips through a signing handle.
/// Material that does not parse is refused; material that does may still
/// be refused when loading the key fails for want of randomness.
fn validate_material(material: &KeyMaterial) -> (r: Result<(), KeyringError>)
    ensures
        r is Ok ==> material_ok(*material),
        !material_ok(*material) ==> r is Err,
        r matches Err(e) ==> e is InvalidMaterial,
{
    let key = match parse_key_pair(material.key_der.as_slice()) {
        Ok(key) => key,
        Err(e) => {
            return Err(KeyringError::InvalidMaterial(described("private key parse failed: ", &e)));
        },
    };
    match issuer_from_ca_cert(material.cert_der.as_slice(), key) {
        Ok(_) => Ok(()),
        Err(e) => Err(KeyringError::InvalidMaterial(described("certificate parse failed: ", &e))),
    }
}

// ---------------------------------------------------------------------
// Tenant CA stores.
// ---------------------------------------------------------------------
/// Pluggable backing for tenant CA keys.
pub trait CaStore: Send + Sync {
    /// The tenant CAs held, by tenant name.
    spec fn cas(&self) -> Map<Seq<char>, TenantCa>;

    /// Whether the store takes every key it is given (a store in memory
    /// does; one backed by a file or an HSM may refuse).
    spec fn accepts_all(&self) -> bool;

    /// Stores a tenant CA key, replacing any the tenant had.
    fn insert(&mut self, tenant: &str, ca: TenantCa) -> (r: Result<(), KeyringError>)
        ensures
            r is Ok ==> final(self).cas() == old(self).cas().insert(tenant@, ca),
            old(self).accepts_all() ==> r is Ok,
    ;

    /// Returns a tenant CA key, if present.
    fn get(&self, tenant: &str) -> (r: Option<&TenantCa>)
        ensures
            match r {
                Some(ca) => self.cas().contains_key(tenant@) && self.cas()[tenant@] == *ca,
                None => !self.cas().contains_key(tenant@),
            },
    ;

    /// Removes and returns a tenant CA key, if present.
    fn remove(&mut self, tenant: &str) -> (r: Option<TenantCa>)
        ensures
            final(self).cas() == old(self).cas().remove(tenant@),
            match r {
                Some(ca) => old(self).cas().contains_key(tenant@) && old(self).cas()[tenant@]
                    == ca,
                None => !old(self).cas().contains_key(tenant@),
            },
    ;
}

/// The in-process backing implementation.
#[derive(Debug)]
pub struct InMemoryCaStore {
    by_tenant: Vec<(String, TenantCa)>,
}

/// The tenant CAs a list of entries holds: a later entry for a tenant
/// replaces an earlier one.
pub open spec fn entries_map(s: Seq<(String, TenantCa)>) -> Map<Seq<char>, TenantCa>
    decreases s.len(),
{
    if s.len() == 0 {
        Map::empty()
    } else {
        entries_map(s.drop_last()).insert(s.last().0@, s.last().1)
    }
}

/// The entry is not the tenant's.
pub open spec fn not_tenant(t: Seq<char>) -> spec_fn((String, TenantCa)) -> bool {
    |e: (String, TenantCa)| e.0@ != t
}

proof fn lemma_entries_push(s: Seq<(String, TenantCa)>, e: (String, TenantCa))
    ensures
        entries_map(s.push(e)) == entries_map(s).insert(e.0@, e.1),
{
    assert(s.push(e).drop_last() =~= s);
}

/// Dropping a tenant's entries drops the tenant from the map.
proof fn lemma_entries_filter(s: Seq<(String, TenantCa)>, t: Seq<char>)
    ensures
        entries_map(s.filter(not_tenant(t))) == entries_map(s).remove(t),
    decreases s.len(),
{
    reveal_with_fuel(Seq::filter, 1);
    if s.len() == 0 {
        assert(entries_map(s).remove(t) =~= Map::empty());
    } else {
        let d = s.drop_last();
        let e = s.last();
        lemma_entries_filter(d, t);
        if e.0@ != t {
            lemma_entries_push(d.filter(not_tenant(t)), e);
            assert(entries_map(s).remove(t) =~= entries_map(d).remove(t).insert(e.0@, e.1));
        } else {
            assert(entries_map(s).remove(t) =~= entries_map(d).remove(t));
        }
    }
}

impl Default for InMemoryCaStore {
    fn default() -> (r: Self)
        ensures
            r.cas() == Map::<Seq<char>, TenantCa>::empty(),
    {
        InMemoryCaStore { by_tenant: Vec::new() }
    }
}

impl CaStore for InMemoryCaStore {
    closed spec fn cas(&self) -> Map<Seq<char>, TenantCa> {
        entries_map(self.by_tenant@)
    }

    /// An in-memory store takes every key.
    open spec fn accepts_all(&self) -> bool {
        true
    }

    fn insert(&mut self, tenant: &str, ca: TenantCa) -> (r: Result<(), KeyringError>) {
        let _ = self.remove(tenant);
        let ghost dropped = self.by_tenant@;
        let entry = (tenant.to_owned(), ca);
        let ghost pushed = entry;
        self.by_tenant.push(entry);
        proof {
            lemma_entries_push(dropped, pushed);
            assert(old(self).cas().remove(tenant@).insert(tenant@, ca) =~= old(self).cas().insert(
                tenant@,
                ca,
            ));
        }
        Ok(())
    }

    fn get(&self, tenant: &str) -> (r: Option<&TenantCa>) {
        let key = tenant.to_owned();
        let ghost s = self.by_tenant@;
        let mut found: Option<usize> = None;
        let mut i: usize = 0;
        while i < self.by_tenant.len()
            invariant
                i <= s.len(),
                s == self.by_tenant@,
                key@ == tenant@,
                match found {
                    Some(p) => p < i && entries_map(s.subrange(0, i as int)).contains_key(tenant@)
                        && entries_map(s.subrange(0, i as int))[tenant@] == s[p as int].1,
                    None => !entries_map(s.subrange(0, i as int)).contains_key(tenant@),
                },
            decreases s.len() - i,
        {
            proof {
                assert(s.subrange(0, i + 1) =~= s.subrange(0, i as int).push(s[i as int]));
                lemma_entries_push(s.subrange(0, i as int), s[i as int]);
            }
            if self.by_tenant[i].0 == key {
                found = Some(i);
            }
            i = i + 1;
        }
        assert(s.subrange(0, s.len() as int) =~= s);
        match found {
            Some(p) => Some(&self.by_tenant[p].1),
            None => None,
        }
    }

    fn remove(&mut self, tenant: &str) -> (r: Option<TenantCa>) {
        let key = tenant.to_owned();
        let mut rest: Vec<(String, TenantCa)> = Vec::new();
        std::mem::swap(&mut rest, &mut self.by_tenant);
        let ghost s = rest@;
        let n = rest.len();
        let mut kept: Vec<(String, TenantCa)> = Vec::new();
        let mut last: Option<TenantCa> = None;
        let mut i: usize = 0;
        while rest.len() > 0
            invariant
                s.len() == n,
                i <= s.len(),
                rest@ == s.subrange(i as int, s.len() as int),
                key@ == tenant@,
                kept@ == s.subrange(0, i as int).filter(not_tenant(tenant@)),
                match last {
                    Some(v) => entries_map(s.subrange(0, i as int)).contains_key(tenant@)
                        && entries_map(s.subrange(0, i as int))[tenant@] == v,
                    None => !entries_map(s.subrange(0, i as int)).contains_key(tenant@),
                },
            decreases rest@.len(),
        {
            let e = rest.remove(0);
            proof {
                assert(e == s[i as int]);
                assert(s.subrange(0, i + 1) =~= s.subrange(0, i as int).push(e));
                lemma_entries_push(s.subrange(0, i as int), e);
                reveal_with_fuel(Seq::filter, 1);
                assert(s.subrange(0, i as int).push(e).drop_last() =~= s.subrange(0, i as int));
                assert(rest@ =~= s.subrange(i + 1, s.len() as int));
            }
            if e.0 == key {
                last = Some(e.1);
            } else {
                kept.push(e);
            }
            i = i + 1;
        }
        proof {
            assert(s.subrange(0, s.len() as int) =~= s);
            lemma_entries_filter(s, tenant@);
        }
        self.by_tenant = kept;
        last
    }
}

// ---------------------------------------------------------------------
// The keyring.
// ---------------------------------------------------------------------
/// A boxed store is the store it holds.
impl<T: CaStore + ?Sized> CaStore for Box<T> {
    open spec fn cas(&self) -> Map<Seq<char>, TenantCa> {
        (**self).cas()
    }

    open spec fn accepts_all(&self) -> bool {
        (**self).accepts_all()
    }

    fn insert(&mut self, tenant: &str, ca: TenantCa) -> (r: Result<(), KeyringError>) {
        (**self).insert(tenant, ca)
    }

    fn get(&self, tenant: &str) -> (r: Option<&TenantCa>) {
        (**self).get(tenant)
    }

    fn remove(&mut self, tenant: &str) -> (r: Option<TenantCa>) {
        (**self).remove(tenant)
    }
}

/// The host-held keyring, over its tenant CA store.
pub struct Keyring<S: CaStore = InMemoryCaStore> {
    intermediate: KeyMaterial,
    root: Option<KeyMaterial>,
    tenant_cas: S,
}

impl<S: CaStore> Keyring<S> {
    /// The online intermediate's material.
    pub closed spec fn spec_intermediate(&self) -> KeyMaterial {
        self.intermediate
    }

    /// The offline root's material, if retained.
    pub closed spec fn spec_root(&self) -> Option<KeyMaterial> {
        self.root
    }

    /// The tenant CAs held.
    pub closed spec fn spec_cas(&self) -> Map<Seq<char>, TenantCa> {
        self.tenant_cas.cas()
    }

    /// Whether the tenant CA store takes every key it is given.
    pub closed spec fn spec_store_accepts_all(&self) -> bool {
        self.tenant_cas.accepts_all()
    }

    /// Initialises a keyring from bootstrap material, failing loudly when the
    /// intermediate is missing or invalid (and when a root is supplied that
    /// is invalid).
    pub fn initialize(tenant_cas: S, bootstrap: KeyringBootstrap) -> (r: Result<
        Self,
        KeyringError,
    >)
        ensures
            match bootstrap.intermediate {
                None => r == Err::<Self, KeyringError>(KeyringError::IntermediateMissing),
                Some(i) => {
                    &&& r is Ok || invalid_material(r)
                    &&& !material_ok(i) ==> invalid_material(r)
                    &&& (bootstrap.root matches Some(root) && !material_ok(root)) ==> invalid_material(r)
                    &&& r matches Ok(k) ==> {
                        &&& k.spec_intermediate() == i
                        &&& k.spec_root() == bootstrap.root
                        &&& k.spec_cas() == tenant_cas.cas()
                        &&& material_ok(i)
                        &&& bootstrap.root matches Some(root) ==> material_ok(root)
                    }
                },
            },
    {
        let intermediate = match bootstrap.intermediate {
            Some(i) => i,
            None => {
                return Err(KeyringError::IntermediateMissing);
            },
        };
        match validate_material(&intermediate) {
            Ok(()) => {},
            Err(e) => {
                return Err(e);
            },
        }
        match &bootstrap.root {
            Some(root) => match validate_material(root) {
                Ok(()) => {},
                Err(e) => {
                    return Err(e);
                },
            },
            None => {},
        }
        Ok(Keyring { intermediate, root: bootstrap.root, tenant_cas })
    }

    /// Swaps the tenant CA backing for a custom store (e.g. a file or HSM
    /// backing).
    pub fn with_tenant_store<T: CaStore>(self, store: T) -> (r: Keyring<T>)
        ensures
            r.spec_intermediate() == self.spec_intermediate(),
            r.spec_root() == self.spec_root(),
            r.spec_cas() == store.cas(),
    {
        Keyring { intermediate: self.intermediate, root: self.root, tenant_cas: store }
    }

    /// Returns the intermediate certificate (public DER only).
    pub fn intermediate_cert(&self) -> (r: &[u8])
        ensures
            r@ == self.spec_intermediate().cert_der@,
    {
        self.intermediate.cert_der.as_slice()
    }

    /// Returns the root certificate (public DER only), if retained.
    pub fn root_cert(&self) -> (r: Option<&[u8]>)
        ensures
            match self.spec_root() {
                Some(m) => r matches Some(c) && c@ == m.cert_der@,
                None => r is None,
            },
    {
        match &self.root {
            Some(material) => Some(material.cert_der.as_slice()),
            None => None,
        }
    }

    /// Deletes a tenant CA key from the keyring.
    pub fn revoke_ca(&mut self, tenant: &str) -> (r: Result<(), KeyringError>)
        ensures
            final(self).spec_cas() == old(self).spec_cas().remove(tenant@),
            final(self).spec_intermediate() == old(self).spec_intermediate(),
            final(self).spec_root() == old(self).spec_root(),
            match r {
                Ok(()) => old(self).spec_cas().contains_key(tenant@),
                Err(e) => !old(self).spec_cas().contains_key(tenant@) && not_found_for(e, tenant@),
            },
    {
        match self.tenant_cas.remove(tenant) {
            Some(_) => Ok(()),
            None => Err(KeyringError::TenantCaNotFound { tenant: tenant.to_owned() }),
        }
    }

    /// Mints a tenant CA: generates a host-held tenant key pair, signs it via
    /// the online intermediate, retains the key, and returns the DER-encoded
    /// tenant CA certificate.
    pub fn sign_tenant_ca(&mut self, tenant: &str) -> (r: Result<Vec<u8>, KeyringError>)
        ensures
            final(self).spec_intermediate() == old(self).spec_intermediate(),
            final(self).spec_root() == old(self).spec_root(),
            r is Ok || invalid_material(r) || r matches Err(KeyringError::Signing(_))
                || !old(self).spec_store_accepts_all(),
            !material_ok(old(self).spec_intermediate()) ==> invalid_material(r)
                && final(self).spec_cas() == old(self).spec_cas(),
            r matches Ok(cert) ==> {
                let ca = final(self).spec_cas()[tenant@];
                &&& material_ok(old(self).spec_intermediate())
                &&& made_from(
                    cert@,
                    ca_view(tenant_ca_name(tenant@)),
                    public_key_of(ca.spec_key()),
                )
                &&& issued_by(cert@, old(self).spec_intermediate().cert_der@)
                &&& signed_with(cert@, old(self).spec_intermediate().key_der@)
                &&& final(self).spec_cas().contains_key(tenant@)
                &&& ca.spec_cert() == cert@
                &&& key_der_parses(ca.spec_key())
                &&& final(self).spec_cas() == old(self).spec_cas().insert(tenant@, ca)
            },
    {
        let issuer_key = match parse_key_pair(self.intermediate.key_der.as_slice()) {
            Ok(k) => k,
            Err(e) => {
                return Err(
                    KeyringError::InvalidMaterial(described("intermediate key parse failed: ", &e)),
                );
            },
        };
        let issuer = match issuer_from_ca_cert(self.intermediate.cert_der.as_slice(), issuer_key) {
            Ok(i) => i,
            Err(e) => {
                return Err(
                    KeyringError::InvalidMaterial(described("intermediate cert parse failed: ", &e)),
                );
            },
        };
        let tenant_key = match generate_p256_key() {
            Ok(k) => k,
            Err(e) => {
                return Err(KeyringError::Signing(rcgen_error_text(&e)));
            },
        };
        let name = concat("Selium Tenant CA ", tenant);
        let params = certificate_params(&ca_profile(name.as_str()));
        let cert_der = match sign_key(&params, &tenant_key, &issuer) {
            Ok(der) => der,
            Err(e) => {
                return Err(KeyringError::Signing(rcgen_error_text(&e)));
            },
        };
        let retained = cert_der.clone();
        assert(retained@ =~= cert_der@);
        let ca = TenantCa { cert_der: retained, key_der: tenant_key.pkcs8_der() };
        let ghost held = ca;
        match self.tenant_cas.insert(tenant, ca) {
            Ok(()) => {},
            Err(e) => {
                return Err(e);
            },
        }
        assert(self.tenant_cas.cas()[tenant@] == held);
        Ok(cert_der)
    }

    /// Signs a client-supplied SPKI via the tenant's CA key, returning the
    /// DER-encoded short-lived leaf certificate. The client's private key
    /// never leaves the client; only its public key crosses the boundary.
    /// The leaf is valid from five minutes before the current time for one
    /// day.
    pub fn sign_user_cert(&self, tenant: &str, spki_der: &[u8]) -> (r: Result<Vec<u8>, KeyringError>)
        ensures
            ({
                let cas = self.spec_cas();
                if !cas.contains_key(tenant@) {
                    r matches Err(e) && not_found_for(e, tenant@)
                } else if !key_der_parses(cas[tenant@].spec_key()) || !ca_cert_parses(
                    cas[tenant@].spec_cert(),
                ) {
                    invalid_material(r)
                } else if !spki_parses(spki_der@) {
                    r == Err::<Vec<u8>, KeyringError>(KeyringError::UnsupportedSubjectKey)
                        || invalid_material(r)
                } else {
                    r is Ok || r matches Err(KeyringError::Signing(_)) || invalid_material(r)
                }
            }),
            r matches Ok(der) ==> {
                let ca = self.spec_cas()[tenant@];
                &&& self.spec_cas().contains_key(tenant@)
                &&& issued_leaf(der@, tenant@, spki_key(spki_der@))
                &&& issued_by(der@, ca.spec_cert())
                &&& signed_with(der@, ca.spec_key())
            },
    {
        let now = now_unix_nanos();
        self.sign_user_cert_at(tenant, spki_der, now)
    }

    /// Signs a client-supplied SPKI via the tenant's CA key as at the
    /// instant `now` (Unix nanoseconds): the leaf is valid from five minutes
    /// before `now` for one day, and signing fails when that window holds an
    /// instant a certificate cannot carry.
    pub fn sign_user_cert_at(&self, tenant: &str, spki_der: &[u8], now: i128) -> (r: Result<
        Vec<u8>,
        KeyringError,
    >)
        ensures
            ({
                let cas = self.spec_cas();
                if !cas.contains_key(tenant@) {
                    r matches Err(e) && not_found_for(e, tenant@)
                } else if !key_der_parses(cas[tenant@].spec_key()) || !ca_cert_parses(
                    cas[tenant@].spec_cert(),
                ) {
                    invalid_material(r)
                } else if !spki_parses(spki_der@) {
                    r == Err::<Vec<u8>, KeyringError>(KeyringError::UnsupportedSubjectKey)
                        || invalid_material(r)
                } else if leaf_window(now) is None {
                    r matches Err(KeyringError::Signing(_)) || invalid_material(r)
                } else {
                    r is Ok || r matches Err(KeyringError::Signing(_)) || invalid_material(r)
                }
            }),
            r matches Ok(der) ==> {
                let ca = self.spec_cas()[tenant@];
                &&& self.spec_cas().contains_key(tenant@)
                &&& leaf_window(now) matches Some((not_before, not_after))
                &&& made_from(der@, leaf_view(tenant@, not_before, not_after), spki_key(spki_der@))
                &&& issued_by(der@, ca.spec_cert())
                &&& signed_with(der@, ca.spec_key())
            },
    {
        let ca = match self.tenant_cas.get(tenant) {
            Some(ca) => ca,
            None => {
                return Err(KeyringError::TenantCaNotFound { tenant: tenant.to_owned() });
            },
        };
        let ca_key = match parse_key_pair(ca.key_der.as_slice()) {
            Ok(k) => k,
            Err(e) => {
                return Err(
                    KeyringError::InvalidMaterial(described("tenant CA key parse failed: ", &e)),
                );
            },
        };
        let issuer = match issuer_from_ca_cert(ca.cert_der.as_slice(), ca_key) {
            Ok(i) => i,
            Err(e) => {
                return Err(
                    KeyringError::InvalidMaterial(described("tenant CA cert parse failed: ", &e)),
                );
            },
        };
        let subject = match parse_spki(spki_der) {
            Ok(s) => s,
            Err(_) => {
                return Err(KeyringError::UnsupportedSubjectKey);
            },
        };
        let (not_before, not_after) = match leaf_validity(now) {
            Some(window) => window,
            None => {
                return Err(KeyringError::Signing("leaf validity outside the supported range".to_owned()));
            },
        };
        let params = certificate_params(&leaf_profile(tenant, not_before, not_after));
        match sign_spki(&params, &subject, &issuer) {
            Ok(der) => Ok(der),
            Err(e) => Err(KeyringError::Signing(rcgen_error_text(&e))),
        }
    }
}

impl Keyring<InMemoryCaStore> {
    /// Generates a fresh root and intermediate hierarchy with an empty
    /// in-memory tenant CA store. The offline root is retained for operator
    /// bootstrap and never referenced by a hostcall.
    pub fn generate() -> (r: Result<Self, KeyringError>)
        ensures
            match r {
                Ok(k) => {
                    &&& k.spec_cas() == Map::<Seq<char>, TenantCa>::empty()
                    &&& k.spec_store_accepts_all()
                    &&& k.spec_root() matches Some(root) && {
                        &&& key_der_parses(root.key_der@)
                        &&& made_from(
                            root.cert_der@,
                            ca_view("Selium Root CA"@),
                            public_key_of(root.key_der@),
                        )
                        &&& issued_by(root.cert_der@, root.cert_der@)
                        &&& signed_with(root.cert_der@, root.key_der@)
                        &&& issued_by(k.spec_intermediate().cert_der@, root.cert_der@)
                        &&& signed_with(k.spec_intermediate().cert_der@, root.key_der@)
                    }
                    &&& key_der_parses(k.spec_intermediate().key_der@)
                    &&& made_from(
                        k.spec_intermediate().cert_der@,
                        ca_view("Selium Intermediate CA"@),
                        public_key_of(k.spec_intermediate().key_der@),
                    )
                },
                Err(e) => e is Signing,
            },
    {
        let root_key = match generate_p256_key() {
            Ok(k) => k,
            Err(e) => {
                return Err(KeyringError::Signing(rcgen_error_text(&e)));
            },
        };
        let root_params = certificate_params(&ca_profile("Selium Root CA"));
        let root_der = match self_sign(&root_params, &root_key) {
            Ok(der) => der,
            Err(e) => {
                return Err(KeyringError::Signing(rcgen_error_text(&e)));
            },
        };
        let root = KeyMaterial { cert_der: root_der, key_der: root_key.pkcs8_der() };
        let root_issuer = issuer_from_params(&root_params, root.cert_der.as_slice(), root_key);
        let intermediate_key = match generate_p256_key() {
            Ok(k) => k,
            Err(e) => {
                return Err(KeyringError::Signing(rcgen_error_text(&e)));
            },
        };
        let intermediate_params = certificate_params(&ca_profile("Selium Intermediate CA"));
        let intermediate_der = match sign_key(&intermediate_params, &intermediate_key, &root_issuer) {
            Ok(der) => der,
            Err(e) => {
                return Err(KeyringError::Signing(rcgen_error_text(&e)));
            },
        };
        let intermediate = KeyMaterial {
            cert_der: intermediate_der,
            key_der: intermediate_key.pkcs8_der(),
        };
        Ok(Keyring { intermediate, root: Some(root), tenant_cas: InMemoryCaStore::default() })
    }
}

/// Revocation is final: once a tenant's CA is revoked the keyring holds no
/// CA for the tenant, so signing a leaf for it fails with
/// `TenantCaNotFound` and revoking it again fails the same way, while every
/// other tenant's CA is untouched.
pub proof fn lemma_revoked_ca_is_gone(cas: Map<Seq<char>, TenantCa>, tenant: Seq<char>)
    ensures
        !cas.remove(tenant).contains_key(tenant),
        forall|t: Seq<char>|
            t != tenant ==> (#[trigger] cas.remove(tenant).contains_key(t) == cas.contains_key(t)
                && (cas.contains_key(t) ==> cas.remove(tenant)[t] == cas[t])),
{
}

/// Minting then looking up: after a tenant CA is minted, the keyring holds
/// a CA for the tenant whose anchor certificate is the one returned, and
/// every other tenant's CA is as it was.
pub proof fn lemma_minted_ca_is_held(
    cas: Map<Seq<char>, TenantCa>,
    tenant: Seq<char>,
    ca: TenantCa,
    cert: Seq<u8>,
)
    requires
        ca.spec_cert() == cert,
    ensures
        cas.insert(tenant, ca).contains_key(tenant),
        cas.insert(tenant, ca)[tenant].spec_cert() == cert,
        forall|t: Seq<char>|
            t != tenant ==> (#[trigger] cas.insert(tenant, ca).contains_key(t) == cas.contains_key(t)
                && (cas.contains_key(t) ==> cas.insert(tenant, ca)[t] == cas[t])),
{
}

/// Every CA certificate the keyring issues may sign certificates: a CA
/// profile carries CA basic constraints and, among its key usages, both
/// keyCertSign and digitalSignature, so the leaves a tenant CA signs chain
/// to it; a leaf profile is no CA and may not sign certificates.
pub proof fn lemma_ca_profiles_sign_certificates(name: Seq<char>, tenant: Seq<char>, b: i128, a: i128)
    ensures
        ca_view(name).ca == CaConstraint::Unconstrained,
        ca_view(name).key_usages.contains(KeyUsage::KeyCertSign),
        ca_view(name).key_usages.contains(KeyUsage::DigitalSignature),
        leaf_view(tenant, b, a).ca == CaConstraint::NotCa,
        !leaf_view(tenant, b, a).key_usages.contains(KeyUsage::KeyCertSign),
        leaf_view(tenant, b, a).key_usages.contains(KeyUsage::DigitalSignature),
        leaf_view(tenant, b, a).extended_usages.contains(ExtendedUsage::ClientAuth),
{
    assert(ca_view(name).key_usages[0] == KeyUsage::KeyCertSign);
    assert(ca_view(name).key_usages[1] == KeyUsage::DigitalSignature);
    assert(leaf_view(tenant, b, a).key_usages[0] == KeyUsage::DigitalSignature);
    assert(leaf_view(tenant, b, a).extended_usages[0] == ExtendedUsage::ClientAuth);
}

} // verus!
