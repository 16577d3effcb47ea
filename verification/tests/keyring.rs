use rcgen::{KeyPair, PublicKeyData, PKCS_ECDSA_P256_SHA256};
use selium::keyring::{
    leaf_validity, CaStore, InMemoryCaStore, KeyMaterial, Keyring, KeyringBootstrap, KeyringError,
    DEFAULT_LEAF_TTL_NANOS, LEAF_BACKDATE_NANOS,
};
use time::{Duration, OffsetDateTime};
use x509_parser::prelude::FromDer;

/// Generates a client SPKI via rcgen, mirroring the client-side key
/// generation whose public half the identity guest forwards to the host.
fn test_spki() -> Vec<u8> {
    let key = KeyPair::generate_for(&PKCS_ECDSA_P256_SHA256).expect("keygen");
    key.subject_public_key_info()
}

#[test]
fn generate_produces_intermediate_and_root() {
    let keyring = Keyring::generate().expect("generate keyring");
    assert!(!keyring.intermediate_cert().is_empty());
    assert!(keyring.root_cert().is_some());
}

#[test]
fn initialize_fails_loudly_without_intermediate() {
    let result = Keyring::initialize(
        Box::new(InMemoryCaStore::default()),
        KeyringBootstrap {
            root: None,
            intermediate: None,
        },
    );
    assert!(matches!(result, Err(KeyringError::IntermediateMissing)));
}

#[test]
fn initialize_rejects_invalid_intermediate() {
    let result = Keyring::initialize(
        Box::new(InMemoryCaStore::default()),
        KeyringBootstrap {
            root: None,
            intermediate: Some(KeyMaterial {
                cert_der: b"not a certificate".to_vec(),
                key_der: b"not a key".to_vec(),
            }),
        },
    );
    assert!(matches!(result, Err(KeyringError::InvalidMaterial(_))));
}

#[test]
fn sign_tenant_ca_retains_key_and_returns_certificate() {
    let mut keyring = Keyring::generate().expect("generate");
    let cert_der = keyring.sign_tenant_ca("acme").expect("sign tenant ca");

    // The anchor is a CA certificate.
    let (_, parsed) = x509_parser::parse_x509_certificate(&cert_der).expect("parse anchor");
    assert!(parsed.tbs_certificate.is_ca(), "tenant CA must be a CA");

    // The key was retained: a leaf can be signed under it.
    let leaf = keyring
        .sign_user_cert("acme", &test_spki())
        .expect("sign user cert");
    assert!(!leaf.is_empty());
}

#[test]
fn sign_user_cert_embeds_the_client_spki() {
    let mut keyring = Keyring::generate().expect("generate");
    keyring.sign_tenant_ca("acme").expect("sign tenant ca");

    let spki = test_spki();
    let leaf = keyring.sign_user_cert("acme", &spki).expect("sign leaf");

    let (_, input) =
        x509_parser::x509::SubjectPublicKeyInfo::from_der(&spki).expect("parse input spki");
    let (_, parsed) = x509_parser::parse_x509_certificate(&leaf).expect("parse leaf");
    let leaf_pki = parsed.tbs_certificate.subject_pki;

    // The leaf carries the client's subject public key, not a host key.
    assert_eq!(leaf_pki.algorithm, input.algorithm);
    assert_eq!(
        leaf_pki.subject_public_key.as_ref(),
        input.subject_public_key.as_ref(),
    );
}

#[test]
fn sign_user_cert_leaf_expires_in_bounded_window() {
    let mut keyring = Keyring::generate().expect("generate");
    keyring.sign_tenant_ca("acme").expect("sign tenant ca");

    let leaf = keyring
        .sign_user_cert("acme", &test_spki())
        .expect("sign leaf");
    let (_, parsed) = x509_parser::parse_x509_certificate(&leaf).expect("parse leaf");
    let validity = parsed.validity();
    let now = OffsetDateTime::now_utc();

    // The leaf is currently valid and expires within the short-TTL window.
    assert!(validity.not_before.to_datetime() <= now);
    assert!(validity.not_after.to_datetime() > now);
    assert!(validity.not_after.to_datetime() < now + Duration::days(1));
}

#[test]
fn sign_user_cert_unknown_tenant_fails() {
    let keyring = Keyring::generate().expect("generate");
    let result = keyring.sign_user_cert("missing", &test_spki());
    assert!(matches!(result, Err(KeyringError::TenantCaNotFound { .. })));
}

#[test]
fn revoke_ca_removes_key() {
    let mut keyring = Keyring::generate().expect("generate");
    keyring.sign_tenant_ca("acme").expect("sign tenant ca");
    keyring.revoke_ca("acme").expect("revoke ca");

    // Signing under the revoked CA key fails, and double-revoke is not
    // mistaken for success.
    let _ = keyring.sign_user_cert("acme", &test_spki()).unwrap_err();
    assert!(matches!(
        keyring.revoke_ca("acme"),
        Err(KeyringError::TenantCaNotFound { .. })
    ));
}

#[test]
fn revoked_tenant_error_names_the_tenant() {
    let mut keyring = Keyring::generate().expect("generate");
    match keyring.revoke_ca("beta") {
        Err(KeyringError::TenantCaNotFound { tenant }) => assert_eq!(tenant, "beta"),
        other => panic!("unexpected {:?}", other.err()),
    }
}

#[test]
fn minting_keeps_other_tenants() {
    let mut keyring = Keyring::generate().expect("generate");
    keyring.sign_tenant_ca("acme").expect("acme");
    keyring.sign_tenant_ca("beta").expect("beta");
    keyring.revoke_ca("acme").expect("revoke acme");
    assert!(keyring.sign_user_cert("beta", &test_spki()).is_ok());
    assert!(matches!(
        keyring.sign_user_cert("acme", &test_spki()),
        Err(KeyringError::TenantCaNotFound { .. })
    ));
}

#[test]
fn sign_user_cert_rejects_garbage_spki() {
    let mut keyring = Keyring::generate().expect("generate");
    keyring.sign_tenant_ca("acme").expect("sign tenant ca");
    let result = keyring.sign_user_cert("acme", b"not an spki");
    assert!(matches!(result, Err(KeyringError::UnsupportedSubjectKey)));
}

#[test]
fn initialize_accepts_generated_material_and_keeps_the_store() {
    let generated = Keyring::generate().expect("generate");
    let intermediate = generated.intermediate_cert().to_vec();
    assert!(!intermediate.is_empty());
    let store = InMemoryCaStore::default();
    assert!(store.get("acme").is_none());
    let mut swapped = generated.with_tenant_store(Box::new(store));
    swapped.sign_tenant_ca("acme").expect("sign tenant ca");
    assert!(swapped.sign_user_cert("acme", &test_spki()).is_ok());
}

#[test]
fn swapping_the_store_drops_minted_cas() {
    let mut keyring = Keyring::generate().expect("generate");
    keyring.sign_tenant_ca("acme").expect("sign");
    let swapped = keyring.with_tenant_store(InMemoryCaStore::default());
    assert!(matches!(
        swapped.sign_user_cert("acme", &test_spki()),
        Err(KeyringError::TenantCaNotFound { .. })
    ));
}

#[test]
fn keyring_error_messages() {
    assert_eq!(
        KeyringError::IntermediateMissing.message(),
        "no intermediate key material configured"
    );
    assert_eq!(
        KeyringError::TenantCaNotFound {
            tenant: "acme".to_string()
        }
        .message(),
        "tenant CA not found: acme"
    );
    assert_eq!(
        KeyringError::InvalidMaterial("bad".to_string()).message(),
        "invalid certificate material: bad"
    );
    assert_eq!(
        KeyringError::Signing("oops".to_string()).message(),
        "signing failed: oops"
    );
    assert_eq!(
        KeyringError::UnsupportedSubjectKey.message(),
        "unsupported subject key algorithm"
    );
}

#[test]
fn leaf_window_is_backdated_and_one_day_long() {
    let now: i128 = 1_700_000_000_000_000_000;
    let (not_before, not_after) = leaf_validity(now).expect("in range");
    assert_eq!(not_before, now - LEAF_BACKDATE_NANOS);
    assert_eq!(not_after - not_before, DEFAULT_LEAF_TTL_NANOS);
    assert!(leaf_validity(i128::MIN).is_none());
}


#[test]
fn tenant_ca_is_issued_by_the_intermediate() {
    let mut keyring = Keyring::generate().expect("generate");
    let anchor = keyring.sign_tenant_ca("acme").expect("sign tenant ca");
    let (_, intermediate) =
        x509_parser::parse_x509_certificate(keyring.intermediate_cert()).expect("parse");
    let (_, tenant_ca) = x509_parser::parse_x509_certificate(&anchor).expect("parse anchor");
    assert_eq!(
        tenant_ca.tbs_certificate.issuer.to_string(),
        intermediate.tbs_certificate.subject.to_string()
    );
    assert_eq!(
        tenant_ca.tbs_certificate.subject.to_string(),
        "CN=Selium Tenant CA acme"
    );
}

#[test]
fn intermediate_is_issued_by_the_root() {
    let keyring = Keyring::generate().expect("generate");
    let (_, root) =
        x509_parser::parse_x509_certificate(keyring.root_cert().expect("root")).expect("parse");
    let (_, intermediate) =
        x509_parser::parse_x509_certificate(keyring.intermediate_cert()).expect("parse");
    assert_eq!(
        intermediate.tbs_certificate.issuer.to_string(),
        root.tbs_certificate.subject.to_string()
    );
    assert_eq!(
        root.tbs_certificate.issuer.to_string(),
        root.tbs_certificate.subject.to_string()
    );
    assert!(intermediate.tbs_certificate.is_ca());
}

#[test]
fn leaf_is_issued_by_the_tenant_ca() {
    let mut keyring = Keyring::generate().expect("generate");
    let anchor = keyring.sign_tenant_ca("acme").expect("sign tenant ca");
    let leaf = keyring.sign_user_cert("acme", &test_spki()).expect("leaf");
    let (_, tenant_ca) = x509_parser::parse_x509_certificate(&anchor).expect("parse anchor");
    let (_, parsed) = x509_parser::parse_x509_certificate(&leaf).expect("parse leaf");
    assert_eq!(
        parsed.tbs_certificate.issuer.to_string(),
        tenant_ca.tbs_certificate.subject.to_string()
    );
    assert!(!parsed.tbs_certificate.is_ca());
}

#[test]
fn leaf_signed_at_a_fixed_instant_has_that_window() {
    let mut keyring = Keyring::generate().expect("generate");
    keyring.sign_tenant_ca("acme").expect("sign tenant ca");
    // 2024-01-01T00:00:00.5Z
    let now: i128 = 1_704_067_200_500_000_000;
    let leaf = keyring
        .sign_user_cert_at("acme", &test_spki(), now)
        .expect("leaf");
    let (_, parsed) = x509_parser::parse_x509_certificate(&leaf).expect("parse leaf");
    let validity = parsed.validity();
    // Cut to whole seconds: from 2023-12-31T23:55:00Z for one day.
    assert_eq!(validity.not_before.timestamp(), 1_704_066_900);
    assert_eq!(validity.not_after.timestamp(), 1_704_066_900 + 86_400);
}

#[test]
fn leaf_outside_the_encodable_range_is_refused() {
    let mut keyring = Keyring::generate().expect("generate");
    keyring.sign_tenant_ca("acme").expect("sign tenant ca");
    let result = keyring.sign_user_cert_at("acme", &test_spki(), i128::MAX);
    assert!(matches!(result, Err(KeyringError::Signing(_))));
}
