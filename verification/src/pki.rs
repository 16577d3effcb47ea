//! The keyring's boundary to `rcgen`: keys, issuers, certificate parameters
//! and signing.
//!
//! Each value made here keeps the bytes it stands for, so that contracts can
//! speak of them: a key pair its PKCS#8 DER, an issuer the DER of its CA
//! certificate and of its private key, a client key its SubjectPublicKeyInfo
//! DER, and certificate parameters the profile they hold. The fields are
//! private to this module, and only its trusted functions build these values.
use rcgen::{
    BasicConstraints, CertificateParams, DnType, ExtendedKeyUsagePurpose, IsCa, Issuer, KeyPair,
    KeyUsagePurpose, SubjectPublicKeyInfo,
};
use rustls_pki_types::CertificateDer;
use time::OffsetDateTime;
use vstd::prelude::*;

use crate::keyring::{
    valid_instant, CaConstraint, CertProfile, ExtendedUsage, KeyUsage, ProfileView,
};

verus! {

#[verifier::external_type_specification]
#[verifier::external_body]
pub struct ExKeyPair(KeyPair);

#[verifier::external_type_specification]
#[verifier::external_body]
#[verifier::reject_recursive_types(S)]
pub struct ExIssuer<'a, S>(Issuer<'a, S>);

#[verifier::external_type_specification]
#[verifier::external_body]
pub struct ExSubjectPublicKeyInfo(SubjectPublicKeyInfo);

#[verifier::external_type_specification]
#[verifier::external_body]
pub struct ExCertificateParams(CertificateParams);

#[verifier::external_type_specification]
#[verifier::external_body]
pub struct ExRcgenError(rcgen::Error);

// ---------------------------------------------------------------------
// Names for what the bytes hold.
// ---------------------------------------------------------------------
/// Whether the bytes are a PKCS#8 private key of a kind `rcgen` can load.
/// Loading can still fail when the system random-number generator fails.
pub uninterp spec fn key_der_parses(der: Seq<u8>) -> bool;

/// Whether `Issuer::from_ca_cert_der` accepts these bytes as a CA
/// certificate.
pub uninterp spec fn ca_cert_parses(der: Seq<u8>) -> bool;

/// Whether `SubjectPublicKeyInfo::from_der` accepts these bytes.
pub uninterp spec fn spki_parses(der: Seq<u8>) -> bool;

/// Whether `der` is an X.509 certificate whose subject common name, basic
/// constraints, key usages, extended key usages, authority key identifier
/// extension and validity window (in whole seconds; `rcgen`'s default window
/// where none is set) are those of `view`.
pub uninterp spec fn certifies(der: Seq<u8>, view: CertView) -> bool;

/// The public key (algorithm and key bits) a certificate certifies.
pub uninterp spec fn subject_key(cert: Seq<u8>) -> Seq<u8>;

/// The public key (algorithm and key bits) of a PKCS#8 private key.
pub uninterp spec fn public_key_of(key_der: Seq<u8>) -> Seq<u8>;

/// The public key (algorithm and key bits) a SubjectPublicKeyInfo carries.
pub uninterp spec fn spki_key(spki_der: Seq<u8>) -> Seq<u8>;

/// Whether the certificate `cert` names the subject of the certificate
/// `issuer_cert` as its issuer.
pub uninterp spec fn issued_by(cert: Seq<u8>, issuer_cert: Seq<u8>) -> bool;

/// Whether the certificate `cert` is signed with the private key whose
/// PKCS#8 DER is `key_der`.
pub uninterp spec fn signed_with(cert: Seq<u8>, key_der: Seq<u8>) -> bool;

/// What a certificate says of its subject, with its window in whole seconds.
pub struct CertView {
    /// The subject's common name.
    pub common_name: Seq<char>,
    /// The basic constraints.
    pub ca: CaConstraint,
    /// The key usages, in order.
    pub key_usages: Seq<KeyUsage>,
    /// The extended key usages, in order.
    pub extended_usages: Seq<ExtendedUsage>,
    /// Whether the authority key identifier extension is present.
    pub authority_key_identifier: bool,
    /// The validity window as whole Unix seconds, if one is set.
    pub validity: Option<(int, int)>,
}

/// The whole second an instant in Unix nanoseconds falls in.
pub open spec fn whole_second(t: i128) -> int {
    t as int / 1_000_000_000
}

/// The certificate a profile describes: its window cut to whole seconds.
pub open spec fn cert_view(p: ProfileView) -> CertView {
    CertView {
        common_name: p.common_name,
        ca: p.ca,
        key_usages: p.key_usages,
        extended_usages: p.extended_usages,
        authority_key_identifier: p.authority_key_identifier,
        validity: match p.validity {
            Some((b, a)) => Some((whole_second(b), whole_second(a))),
            None => None,
        },
    }
}

/// A certificate made from `profile` for the public key `key`: not empty,
/// and certifying the profile and that key.
pub open spec fn made_from(cert: Seq<u8>, profile: ProfileView, key: Seq<u8>) -> bool {
    &&& cert.len() > 0
    &&& certifies(cert, cert_view(profile))
    &&& subject_key(cert) == key
}

// ---------------------------------------------------------------------
// Values that keep their bytes.
// ---------------------------------------------------------------------
/// A key pair with the PKCS#8 DER it was generated as or loaded from.
pub struct HeldKey {
    pair: KeyPair,
    der: Vec<u8>,
}

impl HeldKey {
    /// The key's PKCS#8 DER.
    pub closed spec fn spec_der(&self) -> Seq<u8> {
        self.der@
    }

    /// A copy of the key's PKCS#8 DER.
    pub fn pkcs8_der(&self) -> (r: Vec<u8>)
        ensures
            r@ == self.spec_der(),
    {
        self.der.clone()
    }
}

/// A CA that can sign: its certificate's DER and its private key's DER.
pub struct CaIssuer {
    issuer: Issuer<'static, KeyPair>,
    cert_der: Vec<u8>,
    key_der: Vec<u8>,
}

impl CaIssuer {
    /// The DER of the issuing CA's certificate.
    pub closed spec fn spec_cert(&self) -> Seq<u8> {
        self.cert_der@
    }

    /// The PKCS#8 DER of the issuing CA's private key.
    pub closed spec fn spec_key(&self) -> Seq<u8> {
        self.key_der@
    }
}

/// A client's public key with the SubjectPublicKeyInfo DER it came as.
pub struct ClientKey {
    spki: SubjectPublicKeyInfo,
    der: Vec<u8>,
}

impl ClientKey {
    /// The SubjectPublicKeyInfo DER.
    pub closed spec fn spec_der(&self) -> Seq<u8> {
        self.der@
    }
}

/// `rcgen` certificate parameters with the profile they hold.
pub struct CertParams {
    params: CertificateParams,
    profile: CertProfile,
}

impl CertParams {
    /// The profile the parameters hold.
    pub closed spec fn spec_profile(&self) -> ProfileView {
        self.profile@
    }
}

// ---------------------------------------------------------------------
// Trusted calls.
// ---------------------------------------------------------------------
/// `rcgen::KeyPair::generate_for(&PKCS_ECDSA_P256_SHA256)`: a fresh random
/// ECDSA P-256 key pair, kept with its PKCS#8 DER (`serialize_der`), which
/// `rcgen` can load again.
#[verifier::external_body]
pub fn generate_p256_key() -> (r: Result<HeldKey, rcgen::Error>)
    ensures
        r matches Ok(k) ==> key_der_parses(k.spec_der()),
{
    let pair = KeyPair::generate_for(&rcgen::PKCS_ECDSA_P256_SHA256)?;
    let der = pair.serialize_der();
    Ok(HeldKey { pair, der })
}

/// `rcgen::KeyPair::try_from(&[u8])`: loads a PKCS#8 private key, kept with
/// those bytes. Loading succeeds only on bytes that are such a key; it can
/// also fail on them, when the random-number generator fails.
#[verifier::external_body]
pub fn parse_key_pair(der: &[u8]) -> (r: Result<HeldKey, rcgen::Error>)
    ensures
        r matches Ok(k) ==> key_der_parses(der@) && k.spec_der() == der@,
{
    let pair = KeyPair::try_from(der)?;
    Ok(HeldKey { pair, der: der.to_vec() })
}

/// `rcgen::Issuer::from_ca_cert_der`: an issuer from a CA certificate and
/// the key that signs for it, kept with the certificate's and the key's DER.
/// The key is not checked against the certificate, so the outcome depends
/// on the certificate bytes alone.
#[verifier::external_body]
pub fn issuer_from_ca_cert(cert: &[u8], key: HeldKey) -> (r: Result<CaIssuer, rcgen::Error>)
    ensures
        r is Ok <==> ca_cert_parses(cert@),
        r matches Ok(i) ==> i.spec_cert() == cert@ && i.spec_key() == key.spec_der(),
{
    let issuer = Issuer::from_ca_cert_der(&CertificateDer::from(cert.to_vec()), key.pair)?;
    Ok(CaIssuer { issuer, cert_der: cert.to_vec(), key_der: key.der })
}

/// `rcgen::SubjectPublicKeyInfo::from_der`: parses a client's public key,
/// kept with those bytes. The outcome depends on the bytes alone.
#[verifier::external_body]
pub fn parse_spki(der: &[u8]) -> (r: Result<ClientKey, rcgen::Error>)
    ensures
        r is Ok <==> spki_parses(der@),
        r matches Ok(c) ==> c.spec_der() == der@,
{
    let spki = SubjectPublicKeyInfo::from_der(der)?;
    Ok(ClientKey { spki, der: der.to_vec() })
}

/// `CertificateParams::default()` with the profile's common name as the
/// whole distinguished name (`push` replaces the default one) and its basic
/// constraints and authority key identifier flag converted; the profile
/// holds no key usage, no extended usage and no window, so `rcgen`'s
/// default window stands.
#[verifier::external_body]
pub fn new_params(profile: CertProfile) -> (r: CertParams)
    requires
        profile@.key_usages.len() == 0,
        profile@.extended_usages.len() == 0,
        profile@.validity is None,
    ensures
        r.spec_profile() == profile@,
{
    let mut params = CertificateParams::default();
    params.distinguished_name.push(DnType::CommonName, profile.common_name.as_str());
    params.is_ca = match profile.ca {
        CaConstraint::NotCa => IsCa::NoCa,
        CaConstraint::Unconstrained => IsCa::Ca(BasicConstraints::Unconstrained),
    };
    params.use_authority_key_identifier_extension = profile.authority_key_identifier;
    CertParams { params, profile }
}

/// Appends a key usage to `params.key_usages`.
#[verifier::external_body]
pub fn push_key_usage(params: &mut CertParams, usage: KeyUsage)
    ensures
        final(params).spec_profile() == (ProfileView {
            key_usages: old(params).spec_profile().key_usages.push(usage),
            ..old(params).spec_profile()
        }),
{
    params.params.key_usages.push(
        match usage {
            KeyUsage::KeyCertSign => KeyUsagePurpose::KeyCertSign,
            KeyUsage::DigitalSignature => KeyUsagePurpose::DigitalSignature,
        },
    );
    params.profile.key_usages.push(usage);
}

/// Appends an extended key usage to `params.extended_key_usages`.
#[verifier::external_body]
pub fn push_extended_usage(params: &mut CertParams, usage: ExtendedUsage)
    ensures
        final(params).spec_profile() == (ProfileView {
            extended_usages: old(params).spec_profile().extended_usages.push(usage),
            ..old(params).spec_profile()
        }),
{
    params.params.extended_key_usages.push(
        match usage {
            ExtendedUsage::ClientAuth => ExtendedKeyUsagePurpose::ClientAuth,
        },
    );
    params.profile.extended_usages.push(usage);
}

/// Sets `params.not_before` and `params.not_after` from Unix timestamps in
/// nanoseconds (`OffsetDateTime::from_unix_timestamp_nanos`, which accepts
/// every instant from year 0 to the end of year 9999).
#[verifier::external_body]
pub fn set_validity(params: &mut CertParams, not_before: i128, not_after: i128)
    requires
        valid_instant(not_before),
        valid_instant(not_after),
    ensures
        final(params).spec_profile() == (ProfileView {
            validity: Some((not_before, not_after)),
            ..old(params).spec_profile()
        }),
{
    params.params.not_before = OffsetDateTime::from_unix_timestamp_nanos(not_before).unwrap();
    params.params.not_after = OffsetDateTime::from_unix_timestamp_nanos(not_after).unwrap();
    params.profile.validity = Some((not_before, not_after));
}

/// `rcgen::Issuer::new` over a copy of the parameters a certificate was
/// made from and the key it was made for: an issuer that signs in that
/// certificate's subject name, kept with the certificate's and the key's DER.
#[verifier::external_body]
pub fn issuer_from_params(params: &CertParams, cert: &[u8], key: HeldKey) -> (r: CaIssuer)
    requires
        made_from(cert@, params.spec_profile(), public_key_of(key.spec_der())),
    ensures
        r.spec_cert() == cert@,
        r.spec_key() == key.spec_der(),
{
    let issuer = Issuer::new(params.params.clone(), key.pair);
    CaIssuer { issuer, cert_der: cert.to_vec(), key_der: key.der }
}

/// `rcgen::CertificateParams::signed_by` for a key pair's public key, then
/// `Certificate::der`. Signing is randomised; of a certificate made: it is
/// made from the parameters' profile for the key's public key, names the
/// issuer's certificate as its issuer, and is signed with the issuer's key.
#[verifier::external_body]
pub fn sign_key(params: &CertParams, subject: &HeldKey, issuer: &CaIssuer) -> (r: Result<
    Vec<u8>,
    rcgen::Error,
>)
    ensures
        r matches Ok(der) ==> der@.len() > 0 && certifies(der@, cert_view(params.spec_profile()))
            && subject_key(der@) == public_key_of(subject.spec_der())
            && issued_by(der@, issuer.spec_cert()) && signed_with(der@, issuer.spec_key()),
{
    params.params.signed_by(&subject.pair, &issuer.issuer).map(|cert| cert.der().to_vec())
}

/// `rcgen::CertificateParams::signed_by` for a client's public key, then
/// `Certificate::der`. Signing is randomised; of a certificate made: it is
/// made from the parameters' profile for the client's key, names the
/// issuer's certificate as its issuer, and is signed with the issuer's key.
#[verifier::external_body]
pub fn sign_spki(params: &CertParams, subject: &ClientKey, issuer: &CaIssuer) -> (r: Result<
    Vec<u8>,
    rcgen::Error,
>)
    ensures
        r matches Ok(der) ==> der@.len() > 0 && certifies(der@, cert_view(params.spec_profile()))
            && subject_key(der@) == spki_key(subject.spec_der())
            && issued_by(der@, issuer.spec_cert()) && signed_with(der@, issuer.spec_key()),
{
    params.params.signed_by(&subject.spki, &issuer.issuer).map(|cert| cert.der().to_vec())
}

/// `rcgen::CertificateParams::self_signed`, then `Certificate::der`.
/// Signing is randomised; of a certificate made: it is made from the
/// parameters' profile for the key's public key, names itself as its
/// issuer, and is signed with that key.
#[verifier::external_body]
pub fn self_sign(params: &CertParams, key: &HeldKey) -> (r: Result<Vec<u8>, rcgen::Error>)
    ensures
        r matches Ok(der) ==> der@.len() > 0 && certifies(der@, cert_view(params.spec_profile()))
            && subject_key(der@) == public_key_of(key.spec_der())
            && issued_by(der@, der@) && signed_with(der@, key.spec_der()),
{
    params.params.self_signed(&key.pair).map(|cert| cert.der().to_vec())
}

/// The `Display` text of an `rcgen::Error`. Nothing is stated of the text.
#[verifier::external_body]
pub fn rcgen_error_text(e: &rcgen::Error) -> (r: String) {
    e.to_string()
}

/// `OffsetDateTime::now_utc().unix_timestamp_nanos()`: the current time.
/// Nothing is stated of it.
#[verifier::external_body]
pub fn now_unix_nanos() -> (r: i128) {
    OffsetDateTime::now_utc().unix_timestamp_nanos()
}

} // verus!
