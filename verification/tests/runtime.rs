use selium::runtime::discovery::{
    process_registration_uri, queue_registration_uri, region_registration_uri,
    typed_registration_uri,
};
use selium::runtime::grants::{
    attach_authorised, authorize_serving_tenant, check_subset, CrossTenantDenied,
    ChildGrantDenial, ResourceClass, ResourceIdentity, parent_grant_covers_child,
    validate_child_grants, child_grant_verdict, delegation_admits, delegation_scope, resolve_spawn_tenant, Capability,
    CapabilityGrant, ChildGrantVerdict, DelegationScope, Namespace, ResourceSelector,
    SpawnTenantError,
};
use selium::runtime::mailbox::{mailbox_write, MailboxWrite};
use selium::runtime::metering::MeteringProjector;
use selium::runtime::network::{align_up, stream_layout};
use selium::runtime::operations::next_operation_id;
use selium::runtime::workers::WorkerCounts;

#[test]
fn region_registration_uri_is_typed_and_tenant_scoped() {
    assert_eq!(region_registration_uri("acme", 7), "sel://acme/region/7");
}

#[test]
fn region_registration_uri_supports_root_tenant() {
    assert_eq!(region_registration_uri("", 7), "sel:///region/7");
}

#[test]
fn queue_registration_uri_is_typed() {
    assert_eq!(queue_registration_uri("acme", 7), "sel://acme/queue/7");
}

#[test]
fn process_registration_uri_is_typed() {
    assert_eq!(process_registration_uri("acme", 42), "sel://acme/proc/42");
}

#[test]
fn registration_uri_prints_large_ids() {
    assert_eq!(
        region_registration_uri("t", u64::MAX),
        "sel://t/region/18446744073709551615"
    );
    assert_eq!(queue_registration_uri("t", 0), "sel://t/queue/0");
}

#[test]
fn align_up_rounds_to_multiples() {
    assert_eq!(align_up(0, 8), 0);
    assert_eq!(align_up(1, 8), 8);
    assert_eq!(align_up(8, 8), 8);
    assert_eq!(align_up(9, 8), 16);
    assert_eq!(align_up(4097, 4096), 8192);
    assert_eq!(align_up(7, 1), 7);
}

#[test]
fn metering_projects_and_accumulates() {
    let mut m = MeteringProjector::new();
    let empty = m.project(9);
    assert_eq!(
        (empty.cpu_instructions, empty.memory_bytes, empty.storage_bytes, empty.bandwidth_bytes),
        (0, 0, 0, 0)
    );
    m.observe_engine(9, 100, 4096);
    m.observe_engine(9, 150, 2048);
    m.record_bandwidth(9, 10);
    m.record_bandwidth(9, 5);
    m.record_storage(9, 7);
    let seen = m.project(9);
    assert_eq!(seen.cpu_instructions, 150);
    assert_eq!(seen.memory_bytes, 2048);
    assert_eq!(seen.bandwidth_bytes, 15);
    assert_eq!(seen.storage_bytes, 7);
    m.remove(9);
    assert_eq!(m.project(9).bandwidth_bytes, 0);
}

fn grant(capability: Capability, selectors: Vec<ResourceSelector>) -> CapabilityGrant {
    CapabilityGrant { capability, selectors }
}

fn tenant(t: &str) -> ResourceSelector {
    ResourceSelector::Tenant(t.to_string())
}

#[test]
fn delegation_scope_reads_delegate_grants_only() {
    assert_eq!(delegation_scope(&[]), None);
    assert_eq!(
        delegation_scope(&[grant(Capability::Other(3), vec![tenant("acme")])]),
        None
    );
    let root = [grant(
        Capability::DelegateGrants,
        vec![ResourceSelector::Namespace(Namespace::Root)],
    )];
    assert_eq!(delegation_scope(&root), Some(DelegationScope::Root));
    let tenants = [
        grant(Capability::DelegateGrants, vec![tenant("acme"), ResourceSelector::Children]),
        grant(
            Capability::DelegateGrants,
            vec![ResourceSelector::Namespace(Namespace::Tenant("beta".to_string()))],
        ),
    ];
    let scope = delegation_scope(&tenants).expect("scope");
    assert!(scope.admits_tenant("acme"));
    assert!(scope.admits_tenant("beta"));
    assert!(!scope.admits_tenant("gamma"));
    assert!(DelegationScope::Root.admits_tenant("anyone"));
}

#[test]
fn bootstrap_only_capabilities_are_never_delegated() {
    let parent = [grant(
        Capability::DelegateGrants,
        vec![ResourceSelector::Namespace(Namespace::Root)],
    )];
    for c in [
        Capability::DelegateGrants,
        Capability::MintCertificate,
        Capability::QuotaWrite,
    ] {
        assert_eq!(
            child_grant_verdict(&parent, &[grant(c, vec![tenant("acme")])]),
            ChildGrantVerdict::BootstrapOnly(c)
        );
    }
}

#[test]
fn delegation_is_tenant_fenced() {
    let acme = [grant(Capability::DelegateGrants, vec![tenant("acme")])];
    assert_eq!(
        child_grant_verdict(&acme, &[grant(Capability::Other(1), vec![tenant("acme")])]),
        ChildGrantVerdict::Delegated
    );
    assert_eq!(
        child_grant_verdict(&acme, &[grant(Capability::Other(1), vec![tenant("beta")])]),
        ChildGrantVerdict::CheckSubset
    );
    // An unscoped child grant falls through to the subset check.
    assert_eq!(
        child_grant_verdict(&acme, &[grant(Capability::Other(1), vec![])]),
        ChildGrantVerdict::CheckSubset
    );
    let scope = delegation_scope(&acme);
    assert!(delegation_admits(&scope, &[]));
    assert!(!delegation_admits(&None, &[]));
}

#[test]
fn spawn_tenant_resolution() {
    let own = Some("acme".to_string());
    assert_eq!(resolve_spawn_tenant(&own, None, None), Ok(Some("acme".to_string())));
    assert_eq!(resolve_spawn_tenant(&own, Some("acme"), None), Ok(Some("acme".to_string())));
    assert_eq!(
        resolve_spawn_tenant(&own, Some("beta"), None),
        Err(SpawnTenantError::UnknownAuthority)
    );
    let acme = [grant(Capability::DelegateGrants, vec![tenant("acme")])];
    assert_eq!(
        resolve_spawn_tenant(&own, Some("beta"), Some(&acme)),
        Err(SpawnTenantError::NotInScope)
    );
    let root = [grant(
        Capability::DelegateGrants,
        vec![ResourceSelector::Namespace(Namespace::Root)],
    )];
    assert_eq!(
        resolve_spawn_tenant(&None, Some("beta"), Some(&root)),
        Ok(Some("beta".to_string()))
    );
    assert_eq!(
        resolve_spawn_tenant(&None, Some("beta"), Some(&[])),
        Err(SpawnTenantError::NotInScope)
    );
}

#[test]
fn typed_registration_uri_covers_every_class_segment() {
    for segment in ["region", "proc", "queue"] {
        let uri = typed_registration_uri("acme", segment, 1);
        assert_eq!(uri, format!("sel://acme/{segment}/1"));
    }
}

#[test]
fn operation_id_cursor_rolls_over_to_one() {
    let pending: std::collections::HashMap<u64, ()> = std::collections::HashMap::new();
    let mut next = u64::MAX;
    assert_eq!(next_operation_id(&mut next, &pending), u64::MAX);
    assert_eq!(next_operation_id(&mut next, &pending), 1);
    assert_eq!(next, 2);
}

#[test]
fn operation_ids_skip_zero_and_pending_ids() {
    let mut pending = std::collections::HashMap::new();
    pending.insert(5u64, "alloc");
    pending.insert(6u64, "attach");
    let mut next = 5;
    assert_eq!(next_operation_id(&mut next, &pending), 7);
    assert_eq!(next, 8);
    let mut next = 0;
    assert_eq!(next_operation_id(&mut next, &pending), 1);
    pending.insert(u64::MAX, "wait");
    pending.insert(1, "poll");
    let mut next = u64::MAX;
    assert_eq!(next_operation_id(&mut next, &pending), 2);
    assert_eq!(next, 3);
}

#[test]
fn serving_tenant_needs_own_root_or_delegation() {
    let acme = Some("acme".to_owned());
    assert_eq!(authorize_serving_tenant(&acme, None, false), Ok("acme".to_owned()));
    assert_eq!(authorize_serving_tenant(&None, None, false), Ok(String::new()));
    assert_eq!(authorize_serving_tenant(&acme, Some("acme"), false), Ok("acme".to_owned()));
    assert_eq!(authorize_serving_tenant(&None, Some("globex"), false), Ok("globex".to_owned()));
    assert_eq!(authorize_serving_tenant(&acme, Some("globex"), true), Ok("globex".to_owned()));
    assert_eq!(authorize_serving_tenant(&acme, Some("globex"), false), Err(CrossTenantDenied));
}

#[test]
fn worker_counts_use_overrides_or_the_default() {
    let mut counts = WorkerCounts::new();
    assert_eq!(counts.worker_count_for("atlas", 8), 8);
    counts.set_worker_count("atlas", 3);
    counts.set_worker_count("switchboard", 0);
    assert_eq!(counts.worker_count_for("atlas", 8), 3);
    assert_eq!(counts.worker_count_for("switchboard", 8), 1);
    counts.set_worker_count("atlas", 5);
    assert_eq!(counts.worker_count_for("atlas", 8), 5);
    assert_eq!(counts.worker_count_for("discovery", 2), 2);
}

#[test]
fn mailbox_writes_go_to_the_tail_slot_unless_full() {
    assert_eq!(mailbox_write(0, 0, 4, 8, 16), MailboxWrite::Slot { offset: 16, next_tail: 1 });
    assert_eq!(mailbox_write(0, 3, 4, 8, 16), MailboxWrite::Slot { offset: 40, next_tail: 4 });
    assert_eq!(mailbox_write(0, 4, 4, 8, 16), MailboxWrite::Full);
    assert_eq!(mailbox_write(u32::MAX, 1, 4, 8, 16), MailboxWrite::Slot { offset: 24, next_tail: 2 });
    assert_eq!(mailbox_write(u32::MAX, 3, 4, 8, 16), MailboxWrite::Full);
    assert_eq!(
        mailbox_write(u32::MAX - 1, u32::MAX, 4, 8, 16),
        MailboxWrite::Slot { offset: 40, next_tail: 0 }
    );
    assert_eq!(mailbox_write(0, 1, 4, 8, usize::MAX), MailboxWrite::OffsetOverflow);
}

#[test]
fn stream_region_rings_follow_the_header_on_8_byte_boundaries() {
    let l = stream_layout(64, 8, 16, 65536);
    assert_eq!(l.ring_region_len, 65600);
    assert_eq!(l.header_size, 40);
    assert_eq!(l.inbound_offset, 40);
    assert_eq!(l.outbound_offset, 65640);
    assert_eq!(l.total_capacity, 131280);
    let l = stream_layout(64, 5, 8, 100);
    assert_eq!(l.ring_region_len, 164);
    assert_eq!(l.header_size, 21);
    assert_eq!(l.inbound_offset, 24);
    assert_eq!(l.outbound_offset, 192);
    assert_eq!(l.total_capacity, 384);
}

fn ns_tenant(t: &str) -> ResourceSelector {
    ResourceSelector::Namespace(Namespace::Tenant(t.to_string()))
}

#[test]
fn parent_grant_covers_child_by_selector() {
    let root_ns = grant(
        Capability::Other(7),
        vec![ResourceSelector::Namespace(Namespace::Root)],
    );
    // The root namespace covers any tenant or tenant namespace.
    assert!(parent_grant_covers_child(&root_ns, &grant(Capability::Other(7), vec![tenant("acme")])));
    assert!(parent_grant_covers_child(&root_ns, &grant(Capability::Other(7), vec![ns_tenant("beta")])));
    // A different capability is never covered.
    assert!(!parent_grant_covers_child(&root_ns, &grant(Capability::Other(8), vec![tenant("acme")])));
    // A tenant namespace covers only that tenant.
    let acme_ns = grant(Capability::Other(7), vec![ns_tenant("acme")]);
    assert!(parent_grant_covers_child(&acme_ns, &grant(Capability::Other(7), vec![tenant("acme")])));
    assert!(!parent_grant_covers_child(&acme_ns, &grant(Capability::Other(7), vec![tenant("beta")])));
    assert!(!parent_grant_covers_child(
        &acme_ns,
        &grant(Capability::Other(7), vec![ResourceSelector::Namespace(Namespace::Root)])
    ));
    // A child without a matching selector is wider than its parent.
    assert!(!parent_grant_covers_child(&acme_ns, &grant(Capability::Other(7), vec![])));
    // An unrestricted parent covers any child of its capability.
    assert!(parent_grant_covers_child(
        &grant(Capability::Other(7), vec![]),
        &grant(Capability::Other(7), vec![ResourceSelector::Children])
    ));
}

#[test]
fn uri_prefix_and_exact_selectors_cover_narrower_children() {
    let parent = grant(
        Capability::Other(2),
        vec![
            ResourceSelector::UriPrefix("sel://acme/".to_string()),
            ResourceSelector::ResourceClass(ResourceClass::DurableLog),
        ],
    );
    let narrower = grant(
        Capability::Other(2),
        vec![
            ResourceSelector::ResourceClass(ResourceClass::DurableLog),
            ResourceSelector::UriPrefix("sel://acme/logs/".to_string()),
        ],
    );
    assert!(parent_grant_covers_child(&parent, &narrower));
    let wider = grant(
        Capability::Other(2),
        vec![
            ResourceSelector::UriPrefix("sel://".to_string()),
            ResourceSelector::ResourceClass(ResourceClass::DurableLog),
        ],
    );
    assert!(!parent_grant_covers_child(&parent, &wider));
    let other_class = grant(
        Capability::Other(2),
        vec![
            ResourceSelector::UriPrefix("sel://acme/x".to_string()),
            ResourceSelector::ResourceClass(ResourceClass::BlobStore),
        ],
    );
    assert!(!parent_grant_covers_child(&parent, &other_class));
    let region = grant(
        Capability::SharedMemory,
        vec![ResourceSelector::ExplicitResource(ResourceIdentity::Shared(4))],
    );
    assert!(parent_grant_covers_child(&region, &region.clone()));
    assert!(!parent_grant_covers_child(
        &region,
        &grant(
            Capability::SharedMemory,
            vec![ResourceSelector::ExplicitResource(ResourceIdentity::Local(4))]
        )
    ));
    let local = grant(Capability::Other(1), vec![ResourceSelector::Locality(3)]);
    assert!(parent_grant_covers_child(&local, &local.clone()));
    assert!(!parent_grant_covers_child(
        &local,
        &grant(Capability::Other(1), vec![ResourceSelector::Locality(4)])
    ));
}

#[test]
fn check_subset_names_the_first_uncovered_capability() {
    let parent = [
        grant(Capability::Other(1), vec![tenant("acme")]),
        grant(Capability::SharedMemory, vec![]),
    ];
    assert_eq!(check_subset(&parent, &[]), Ok(()));
    assert_eq!(
        check_subset(
            &parent,
            &[
                grant(Capability::SharedMemory, vec![ResourceSelector::Children]),
                grant(Capability::Other(1), vec![tenant("acme")]),
            ]
        ),
        Ok(())
    );
    assert_eq!(
        check_subset(
            &parent,
            &[
                grant(Capability::Other(1), vec![tenant("acme")]),
                grant(Capability::Other(1), vec![tenant("beta")]),
                grant(Capability::Other(9), vec![]),
            ]
        ),
        Err(Capability::Other(1))
    );
}

#[test]
fn validate_child_grants_follows_the_verdict() {
    let acme = [grant(Capability::DelegateGrants, vec![tenant("acme")])];
    assert_eq!(
        validate_child_grants(&acme, &[grant(Capability::QuotaWrite, vec![])]),
        Err(ChildGrantDenial::BootstrapOnly(Capability::QuotaWrite))
    );
    assert_eq!(
        validate_child_grants(&acme, &[grant(Capability::Other(1), vec![tenant("acme")])]),
        Ok(())
    );
    assert_eq!(
        validate_child_grants(&acme, &[grant(Capability::Other(1), vec![])]),
        Err(ChildGrantDenial::ExceedsParent(Capability::Other(1)))
    );
    let plain = [grant(Capability::Other(1), vec![])];
    assert_eq!(
        validate_child_grants(&plain, &[grant(Capability::Other(1), vec![tenant("x")])]),
        Ok(())
    );
}

#[test]
fn a_chain_of_subset_checks_never_widens() {
    let parent = [grant(Capability::Other(5), vec![ResourceSelector::UriPrefix("a/".to_string())])];
    let child = [grant(Capability::Other(5), vec![ResourceSelector::UriPrefix("a/b/".to_string())])];
    let grandchild = [grant(Capability::Other(5), vec![ResourceSelector::UriPrefix("a/b/c".to_string())])];
    assert_eq!(check_subset(&parent, &child), Ok(()));
    assert_eq!(check_subset(&child, &grandchild), Ok(()));
    assert_eq!(check_subset(&parent, &grandchild), Ok(()));
    assert_eq!(check_subset(&parent, &parent), Ok(()));
}

#[test]
fn attach_needs_ownership_an_explicit_grant_or_a_resolve() {
    let none: [CapabilityGrant; 0] = [];
    assert!(attach_authorised(&[3, 7], &none, &[], 7, 11));
    assert!(!attach_authorised(&[3], &none, &[], 7, 11));
    let explicit = [grant(
        Capability::SharedMemory,
        vec![ResourceSelector::ExplicitResource(ResourceIdentity::Shared(11))],
    )];
    assert!(attach_authorised(&[], &explicit, &[], 7, 11));
    assert!(!attach_authorised(&[], &explicit, &[], 7, 12));
    let wrong_capability = [grant(
        Capability::Other(1),
        vec![ResourceSelector::ExplicitResource(ResourceIdentity::Shared(11))],
    )];
    assert!(!attach_authorised(&[], &wrong_capability, &[], 7, 11));
    let local = [grant(
        Capability::SharedMemory,
        vec![ResourceSelector::ExplicitResource(ResourceIdentity::Local(11))],
    )];
    assert!(!attach_authorised(&[], &local, &[], 7, 11));
    assert!(attach_authorised(&[], &none, &[2, 11], 7, 11));
}
