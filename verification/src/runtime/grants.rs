//! Delegation rules for child-process capability grants.
//!
//! A parent holding a `DelegateGrants` grant with a root or tenant
//! namespace selector may confer child grants it does not hold itself,
//! provided every child grant is tenant-scoped within the parent's
//! delegation scope. `DelegateGrants`, `MintCertificate` and `QuotaWrite`
//! are bootstrap-provisioned only and can never be conferred on a child.
//! Child grants outside a delegation must each be covered by one of the
//! parent's own grants; attaching a shared region needs ownership, an
//! explicit shared-memory grant for it, or a discovery resolve.
use vstd::prelude::*;

use crate::text::starts_with;

verus! {

/// A capability a grant confers: the three the delegation rules single
/// out, or any other by its identifier.
#[derive(Clone, Copy, Debug, PartialEq, Eq, Structural)]
pub enum Capability {
    /// May confer grants on children within its delegation scope.
    DelegateGrants,
    /// May mint certificates.
    MintCertificate,
    /// May write quotas.
    QuotaWrite,
    /// May create, map and attach shared memory regions.
    SharedMemory,
    /// Any other capability.
    Other(u32),
}

/// A namespace selector's scope.
#[derive(Clone, Debug, PartialEq, Eq)]
pub enum Namespace {
    /// Every tenant.
    Root,
    /// One tenant.
    Tenant(String),
}

/// A class of host resource.
#[derive(Clone, Copy, Debug, PartialEq, Eq, Structural)]
pub enum ResourceClass {
    /// A shared memory region.
    SharedRegion,
    /// A mapping of a shared region.
    SharedMapping,
    /// A signal.
    Signal,
    /// A TCP listener.
    TcpListener,
    /// A TCP stream.
    TcpStream,
    /// A UDP socket.
    UdpSocket,
    /// A durable log.
    DurableLog,
    /// A blob store.
    BlobStore,
    /// A process.
    Process,
    /// An activity log.
    ActivityLog,
    /// A metering stream.
    MeteringStream,
    /// A guest log.
    GuestLog,
    /// A host queue.
    HostQueue,
}

/// A resource named by identity.
#[derive(Clone, Copy, Debug, PartialEq, Eq, Structural)]
pub enum ResourceIdentity {
    /// A resource shared between processes, by its id.
    Shared(u64),
    /// A resource local to a process, by its handle.
    Local(u64),
}

/// A selector restricting which resources a grant reaches.
#[derive(Clone, Debug, PartialEq, Eq)]
pub enum ResourceSelector {
    /// Resources of one tenant.
    Tenant(String),
    /// Resources within a namespace.
    Namespace(Namespace),
    /// Resources whose URI starts with the prefix.
    UriPrefix(String),
    /// Resources within a locality scope, by the scope's code.
    Locality(u32),
    /// Resources of one class.
    ResourceClass(ResourceClass),
    /// One resource.
    ExplicitResource(ResourceIdentity),
    /// The holder's child processes.
    Children,
}

/// A capability with the selectors that restrict it.
#[derive(Clone, Debug, PartialEq, Eq)]
pub struct CapabilityGrant {
    /// The capability conferred.
    pub capability: Capability,
    /// The selectors restricting it.
    pub selectors: Vec<ResourceSelector>,
}

/// The delegation scope implied by an authority's `DelegateGrants` grants.
#[derive(Clone, Debug, PartialEq, Eq)]
pub enum DelegationScope {
    /// Root-wide.
    Root,
    /// The named tenants.
    Tenants(Vec<String>),
}

/// A delegation scope as a mathematical value.
pub enum ScopeView {
    /// Root-wide.
    Root,
    /// The named tenants.
    Tenants(Set<Seq<char>>),
}

/// The tenant a selector scopes to, if it names one.
pub open spec fn selector_tenant(s: ResourceSelector) -> Option<Seq<char>> {
    match s {
        ResourceSelector::Tenant(t) => Some(t@),
        ResourceSelector::Namespace(Namespace::Tenant(t)) => Some(t@),
        _ => None,
    }
}

/// The selector is the root namespace.
pub open spec fn selector_is_root(s: ResourceSelector) -> bool {
    s matches ResourceSelector::Namespace(Namespace::Root)
}

/// Some `DelegateGrants` grant carries a root namespace selector.
pub open spec fn delegates_root(grants: Seq<CapabilityGrant>) -> bool {
    exists|i: int, j: int|
        0 <= i < grants.len() && 0 <= j < grants[i].selectors@.len() && grants[i].capability
            == Capability::DelegateGrants && #[trigger] selector_is_root(grants[i].selectors@[j])
}

/// The tenants named by the selectors of `DelegateGrants` grants.
pub open spec fn delegated_tenants(grants: Seq<CapabilityGrant>) -> Set<Seq<char>> {
    Set::new(
        |t: Seq<char>|
            exists|i: int, j: int|
                0 <= i < grants.len() && 0 <= j < grants[i].selectors@.len() && grants[i].capability
                    == Capability::DelegateGrants && #[trigger] selector_tenant(grants[i].selectors@[j])
                    == Some(t),
    )
}

/// The delegation scope of an authority's grants: root when some
/// `DelegateGrants` grant has a root namespace selector, else the tenants
/// its tenant selectors name, else none.
pub open spec fn scope_of(grants: Seq<CapabilityGrant>) -> Option<ScopeView> {
    if delegates_root(grants) {
        Some(ScopeView::Root)
    } else if delegated_tenants(grants) == Set::<Seq<char>>::empty() {
        None
    } else {
        Some(ScopeView::Tenants(delegated_tenants(grants)))
    }
}

/// The texts of a list of strings.
pub open spec fn names_of(v: Seq<String>) -> Seq<Seq<char>> {
    v.map_values(|x: String| x@)
}

/// The view of a scope.
pub open spec fn scope_view(s: DelegationScope) -> ScopeView {
    match s {
        DelegationScope::Root => ScopeView::Root,
        DelegationScope::Tenants(ts) => ScopeView::Tenants(names_of(ts@).to_set()),
    }
}

/// The scope admits a spawn in the tenant.
pub open spec fn admits(scope: ScopeView, tenant: Seq<char>) -> bool {
    match scope {
        ScopeView::Root => true,
        ScopeView::Tenants(ts) => ts.contains(tenant),
    }
}

/// Whether two strings are equal.
fn same_text(a: &String, b: &str) -> (r: bool)
    ensures
        r == (a@ == b@),
{
    *a == b.to_owned()
}

impl DelegationScope {
    /// Returns whether this scope admits a child spawn in `tenant`.
    pub fn admits_tenant(&self, tenant: &str) -> (r: bool)
        ensures
            r == admits(scope_view(*self), tenant@),
    {
        match self {
            DelegationScope::Root => true,
            DelegationScope::Tenants(tenants) => {
                let ghost names = names_of(tenants@);
                assert(scope_view(*self) == ScopeView::Tenants(names.to_set()));
                let mut i: usize = 0;
                while i < tenants.len()
                    invariant
                        i <= tenants@.len(),
                        names == names_of(tenants@),
                        scope_view(*self) == ScopeView::Tenants(names.to_set()),
                        forall|k: int| 0 <= k < i ==> tenants@[k]@ != tenant@,
                    decreases tenants@.len() - i,
                {
                    if same_text(&tenants[i], tenant) {
                        assert(names[i as int] == tenant@);
                        assert(names.to_set().contains(tenant@));
                        return true;
                    }
                    i = i + 1;
                }
                assert(!names.to_set().contains(tenant@)) by {
                    if names.contains(tenant@) {
                        let k = choose|k: int| 0 <= k < names.len() && names[k] == tenant@;
                        assert(tenants@[k]@ == tenant@);
                    }
                }
                false
            },
        }
    }
}

/// The selector `(a, b)` comes before `(i, j)` in reading order.
pub open spec fn read_before(a: int, b: int, i: int, j: int) -> bool {
    a < i || (a == i && b < j)
}

/// A root selector of a `DelegateGrants` grant was read before `(i, j)`.
pub open spec fn root_seen(grants: Seq<CapabilityGrant>, i: int, j: int) -> bool {
    exists|a: int, b: int|
        0 <= a < grants.len() && 0 <= b < grants[a].selectors@.len() && read_before(a, b, i, j)
            && grants[a].capability == Capability::DelegateGrants && #[trigger] selector_is_root(
            grants[a].selectors@[b],
        )
}

/// The tenant `t` was named by a `DelegateGrants` selector read before
/// `(i, j)`.
pub open spec fn tenant_seen(grants: Seq<CapabilityGrant>, i: int, j: int, t: Seq<char>) -> bool {
    exists|a: int, b: int|
        0 <= a < grants.len() && 0 <= b < grants[a].selectors@.len() && read_before(a, b, i, j)
            && grants[a].capability == Capability::DelegateGrants && #[trigger] selector_tenant(
            grants[a].selectors@[b],
        ) == Some(t)
}

/// Extracts the delegation scope from an authority's grants: root when any
/// `DelegateGrants` grant carries a root namespace selector, the tenants
/// from its tenant selectors, and none when no `DelegateGrants` grant
/// carries a tenant-scoping selector.
pub fn delegation_scope(grants: &[CapabilityGrant]) -> (r: Option<DelegationScope>)
    ensures
        match (r, scope_of(grants@)) {
            (None, None) => true,
            (Some(s), Some(v)) => scope_view(s) == v,
            _ => false,
        },
{
    let ghost g = grants@;
    let mut tenants: Vec<String> = Vec::new();
    let mut root = false;
    let mut i: usize = 0;
    while i < grants.len()
        invariant
            i <= g.len(),
            g == grants@,
            root == root_seen(g, i as int, 0),
            forall|t: Seq<char>|
                #![trigger names_of(tenants@).contains(t)]
                names_of(tenants@).contains(t) <==> tenant_seen(g, i as int, 0, t),
        decreases g.len() - i,
    {
        let grant = &grants[i];
        let delegates = grant.capability == Capability::DelegateGrants;
        let mut j: usize = 0;
        while j < grant.selectors.len()
            invariant
                i < g.len(),
                g == grants@,
                *grant == g[i as int],
                delegates == (grant.capability == Capability::DelegateGrants),
                j <= grant.selectors@.len(),
                root == root_seen(g, i as int, j as int),
                forall|t: Seq<char>|
                    #![trigger names_of(tenants@).contains(t)]
                    names_of(tenants@).contains(t) <==> tenant_seen(
                        g,
                        i as int,
                        j as int,
                        t,
                    ),
            decreases grant.selectors@.len() - j,
        {
            let ghost before = names_of(tenants@);
            let ghost old_root = root;
            if delegates {
                match &grant.selectors[j] {
                    ResourceSelector::Tenant(t) => {
                        tenants.push(t.clone());
                    },
                    ResourceSelector::Namespace(Namespace::Tenant(t)) => {
                        tenants.push(t.clone());
                    },
                    ResourceSelector::Namespace(Namespace::Root) => {
                        root = true;
                    },
                    _ => {},
                }
            }
            proof {
                let sel = g[i as int].selectors@[j as int];
                let now = names_of(tenants@);
                assert(now == before || (delegates && selector_tenant(sel) is Some && now
                    == before.push(selector_tenant(sel)->0)));
                assert forall|a: int, b: int| read_before(a, b, i as int, j + 1) && 0 <= a < g.len()
                    implies read_before(a, b, i as int, j as int) || (a == i && b == j) by {}
                assert(root == root_seen(g, i as int, j + 1)) by {
                    if root && !old_root {
                        assert(selector_is_root(g[i as int].selectors@[j as int]));
                    }
                    if root_seen(g, i as int, j + 1) && !old_root {
                        let (a, b) = choose|a: int, b: int|
                            0 <= a < g.len() && 0 <= b < g[a].selectors@.len() && read_before(a, b, i as int, j + 1)
                                && g[a].capability == Capability::DelegateGrants && #[trigger] selector_is_root(
                                g[a].selectors@[b],
                            );
                        assert(a == i && b == j);
                    }
                }
                assert forall|t: Seq<char>|
                    #![trigger names_of(tenants@).contains(t)]
                    names_of(tenants@).contains(t) <==> tenant_seen(
                        g,
                        i as int,
                        j + 1,
                        t,
                    ) by {
                    if now.contains(t) && !before.contains(t) {
                        let k = choose|k: int| 0 <= k < now.len() && now[k] == t;
                        if k < before.len() {
                            assert(before[k] == t);
                        }
                        assert(selector_tenant(sel) == Some(t));
                    }
                    if before.contains(t) {
                        let k = choose|k: int| 0 <= k < before.len() && before[k] == t;
                        assert(now[k] == t);
                    }
                    if tenant_seen(g, i as int, j + 1, t) && !tenant_seen(g, i as int, j as int, t) {
                        let (a, b) = choose|a: int, b: int|
                            0 <= a < g.len() && 0 <= b < g[a].selectors@.len() && read_before(a, b, i as int, j + 1)
                                && g[a].capability == Capability::DelegateGrants && #[trigger] selector_tenant(
                                g[a].selectors@[b],
                            ) == Some(t);
                        assert(a == i && b == j);
                        assert(now[now.len() - 1] == t);
                    }
                }
            }
            j = j + 1;
        }
        proof {
            assert forall|a: int, b: int|
                0 <= a < g.len() && 0 <= b < g[a].selectors@.len() implies read_before(a, b, i + 1, 0)
                == read_before(a, b, i as int, g[i as int].selectors@.len() as int) by {}
            assert(root == root_seen(g, i + 1, 0)) by {
                if root_seen(g, i + 1, 0) {
                    let (a, b) = choose|a: int, b: int|
                        0 <= a < g.len() && 0 <= b < g[a].selectors@.len() && read_before(a, b, i + 1, 0)
                            && g[a].capability == Capability::DelegateGrants && #[trigger] selector_is_root(
                            g[a].selectors@[b],
                        );
                    assert(read_before(a, b, i as int, j as int));
                }
            }
            assert forall|t: Seq<char>|
                #![trigger names_of(tenants@).contains(t)]
                names_of(tenants@).contains(t) <==> tenant_seen(g, i + 1, 0, t) by {
                if tenant_seen(g, i + 1, 0, t) {
                    let (a, b) = choose|a: int, b: int|
                        0 <= a < g.len() && 0 <= b < g[a].selectors@.len() && read_before(a, b, i + 1, 0)
                            && g[a].capability == Capability::DelegateGrants && #[trigger] selector_tenant(
                            g[a].selectors@[b],
                        ) == Some(t);
                    assert(read_before(a, b, i as int, j as int));
                }
            }
        }
        i = i + 1;
    }
    proof {
        assert(root == delegates_root(g)) by {
            if delegates_root(g) {
                let (a, b) = choose|a: int, b: int|
                    0 <= a < g.len() && 0 <= b < g[a].selectors@.len() && g[a].capability
                        == Capability::DelegateGrants && #[trigger] selector_is_root(g[a].selectors@[b]);
                assert(read_before(a, b, g.len() as int, 0));
            }
        }
        assert(names_of(tenants@).to_set() =~= delegated_tenants(g)) by {
            assert forall|t: Seq<char>| names_of(tenants@).to_set().contains(t)
                <==> delegated_tenants(g).contains(t) by {
                assert(names_of(tenants@).contains(t) <==> tenant_seen(g, g.len() as int, 0, t));
                if delegated_tenants(g).contains(t) {
                    let (a, b) = choose|a: int, b: int|
                        0 <= a < g.len() && 0 <= b < g[a].selectors@.len() && g[a].capability
                            == Capability::DelegateGrants && #[trigger] selector_tenant(g[a].selectors@[b])
                            == Some(t);
                    assert(read_before(a, b, g.len() as int, 0));
                }
            }
        }
    }
    if root {
        Some(DelegationScope::Root)
    } else if tenants.len() == 0 {
        proof {
            assert(names_of(tenants@).to_set() =~= Set::<Seq<char>>::empty());
        }
        None
    } else {
        proof {
            let names = names_of(tenants@);
            assert(names.to_set().contains(names[0]));
            assert(delegated_tenants(g) != Set::<Seq<char>>::empty());
        }
        Some(DelegationScope::Tenants(tenants))
    }
}

/// The selector scopes a grant within the delegation scope.
pub open spec fn in_scope(scope: ScopeView, sel: ResourceSelector) -> bool {
    match selector_tenant(sel) {
        Some(t) => admits(scope, t),
        None => false,
    }
}

/// The grant carries a selector within the delegation scope.
pub open spec fn grant_scoped(scope: ScopeView, g: CapabilityGrant) -> bool {
    exists|j: int| 0 <= j < g.selectors@.len() && #[trigger] in_scope(scope, g.selectors@[j])
}

/// Every child grant carries a selector within the delegation scope.
pub open spec fn delegating(scope: Option<ScopeView>, child: Seq<CapabilityGrant>) -> bool {
    match scope {
        None => false,
        Some(s) => forall|i: int| 0 <= i < child.len() ==> #[trigger] grant_scoped(s, child[i]),
    }
}

/// Whether the grant carries a selector within the scope.
fn grant_in_scope(scope: &DelegationScope, grant: &CapabilityGrant) -> (r: bool)
    ensures
        r == grant_scoped(scope_view(*scope), *grant),
{
    let mut j: usize = 0;
    while j < grant.selectors.len()
        invariant
            j <= grant.selectors@.len(),
            forall|k: int| 0 <= k < j ==> !#[trigger] in_scope(scope_view(*scope), grant.selectors@[k]),
        decreases grant.selectors@.len() - j,
    {
        let hit = match &grant.selectors[j] {
            ResourceSelector::Tenant(t) => scope.admits_tenant(t.as_str()),
            ResourceSelector::Namespace(Namespace::Tenant(t)) => scope.admits_tenant(t.as_str()),
            _ => false,
        };
        if hit {
            assert(in_scope(scope_view(*scope), grant.selectors@[j as int]));
            return true;
        }
        j = j + 1;
    }
    false
}

/// Whether the delegation scope covers every child grant.
pub fn delegation_admits(scope: &Option<DelegationScope>, child: &[CapabilityGrant]) -> (r: bool)
    ensures
        r == delegating(
            match *scope {
                Some(s) => Some(scope_view(s)),
                None => None,
            },
            child@,
        ),
{
    let s = match scope {
        Some(s) => s,
        None => {
            return false;
        },
    };
    let mut i: usize = 0;
    while i < child.len()
        invariant
            i <= child@.len(),
            *scope == Some(*s),
            forall|k: int| 0 <= k < i ==> #[trigger] grant_scoped(scope_view(*s), child@[k]),
        decreases child@.len() - i,
    {
        if !grant_in_scope(s, &child[i]) {
            return false;
        }
        i = i + 1;
    }
    true
}

/// Some grant confers the capability.
pub open spec fn confers(grants: Seq<CapabilityGrant>, c: Capability) -> bool {
    exists|i: int| 0 <= i < grants.len() && #[trigger] grants[i].capability == c
}

/// The first bootstrap-only capability a child grant confers, checked in
/// the order `DelegateGrants`, `MintCertificate`, `QuotaWrite`.
pub open spec fn bootstrap_only(child: Seq<CapabilityGrant>) -> Option<Capability> {
    if confers(child, Capability::DelegateGrants) {
        Some(Capability::DelegateGrants)
    } else if confers(child, Capability::MintCertificate) {
        Some(Capability::MintCertificate)
    } else if confers(child, Capability::QuotaWrite) {
        Some(Capability::QuotaWrite)
    } else {
        None
    }
}

/// Whether some grant confers the capability.
fn any_confers(grants: &[CapabilityGrant], c: Capability) -> (r: bool)
    ensures
        r == confers(grants@, c),
{
    let mut i: usize = 0;
    while i < grants.len()
        invariant
            i <= grants@.len(),
            forall|k: int| 0 <= k < i ==> (#[trigger] grants@[k]).capability != c,
        decreases grants@.len() - i,
    {
        if grants[i].capability == c {
            return true;
        }
        i = i + 1;
    }
    false
}

/// How a set of child grants is admitted.
#[derive(Clone, Copy, Debug, PartialEq, Eq, Structural)]
pub enum ChildGrantVerdict {
    /// Denied: the capability is bootstrap-provisioned only.
    BootstrapOnly(Capability),
    /// Admitted under the parent's delegation scope.
    Delegated,
    /// Each child grant must be covered by one of the parent's grants.
    CheckSubset,
}

/// What the rules make of child grants: a bootstrap-only capability is
/// denied even when the parent holds it; otherwise grants that are all
/// tenant-scoped within the parent's delegation scope are admitted;
/// otherwise they must be covered by the parent's own grants.
pub open spec fn verdict(parent: Seq<CapabilityGrant>, child: Seq<CapabilityGrant>) -> ChildGrantVerdict {
    match bootstrap_only(child) {
        Some(c) => ChildGrantVerdict::BootstrapOnly(c),
        None => if delegating(scope_of(parent), child) {
            ChildGrantVerdict::Delegated
        } else {
            ChildGrantVerdict::CheckSubset
        },
    }
}

/// Decide how child grants are admitted given the parent's grants.
pub fn child_grant_verdict(parent: &[CapabilityGrant], child: &[CapabilityGrant]) -> (r: ChildGrantVerdict)
    ensures
        r == verdict(parent@, child@),
{
    if any_confers(child, Capability::DelegateGrants) {
        return ChildGrantVerdict::BootstrapOnly(Capability::DelegateGrants);
    }
    if any_confers(child, Capability::MintCertificate) {
        return ChildGrantVerdict::BootstrapOnly(Capability::MintCertificate);
    }
    if any_confers(child, Capability::QuotaWrite) {
        return ChildGrantVerdict::BootstrapOnly(Capability::QuotaWrite);
    }
    let scope = delegation_scope(parent);
    if delegation_admits(&scope, child) {
        ChildGrantVerdict::Delegated
    } else {
        ChildGrantVerdict::CheckSubset
    }
}

/// Why a spawn cannot run under the requested tenant.
#[derive(Clone, Copy, Debug, PartialEq, Eq, Structural)]
pub enum SpawnTenantError {
    /// The parent's authority is not known.
    UnknownAuthority,
    /// The parent holds no `DelegateGrants` grant whose scope admits the
    /// requested tenant.
    NotInScope,
}

/// The tenant a spawned child runs under: its parent's when none (or the
/// parent's own) is requested; another only under an admitting delegation
/// scope.
pub open spec fn spawn_tenant_spec(
    own: Option<Seq<char>>,
    requested: Option<Seq<char>>,
    authority: Option<Seq<CapabilityGrant>>,
) -> Result<Option<Seq<char>>, SpawnTenantError> {
    match requested {
        None => Ok(own),
        Some(t) => if own == Some(t) {
            Ok(Some(t))
        } else {
            match authority {
                None => Err(SpawnTenantError::UnknownAuthority),
                Some(grants) => match scope_of(grants) {
                    Some(s) => if admits(s, t) {
                        Ok(Some(t))
                    } else {
                        Err(SpawnTenantError::NotInScope)
                    },
                    None => Err(SpawnTenantError::NotInScope),
                },
            }
        },
    }
}

/// Resolves the tenant a spawned child runs under.
pub fn resolve_spawn_tenant(
    own: &Option<String>,
    requested: Option<&str>,
    authority: Option<&[CapabilityGrant]>,
) -> (r: Result<Option<String>, SpawnTenantError>)
    ensures
        spawn_tenant_spec(
            match *own {
                Some(o) => Some(o@),
                None => None,
            },
            match requested {
                Some(t) => Some(t@),
                None => None,
            },
            match authority {
                Some(g) => Some(g@),
                None => None,
            },
        ) == match r {
            Ok(Some(t)) => Ok(Some(t@)),
            Ok(None) => Ok(None),
            Err(e) => Err::<Option<Seq<char>>, SpawnTenantError>(e),
        },
{
    let requested = match requested {
        None => {
            return Ok(
                match own {
                    Some(o) => Some(o.clone()),
                    None => None,
                },
            );
        },
        Some(t) => t,
    };
    match own {
        Some(o) => {
            if same_text(o, requested) {
                return Ok(Some(requested.to_owned()));
            }
        },
        None => {},
    }
    let grants = match authority {
        Some(g) => g,
        None => {
            return Err(SpawnTenantError::UnknownAuthority);
        },
    };
    match delegation_scope(grants) {
        Some(scope) => if scope.admits_tenant(requested) {
            Ok(Some(requested.to_owned()))
        } else {
            Err(SpawnTenantError::NotInScope)
        },
        None => Err(SpawnTenantError::NotInScope),
    }
}

/// A cross-tenant allocation was refused: the process is tenant-scoped and
/// holds no `DelegateGrants` grant for the serving tenant.
#[derive(Clone, Copy, Debug, PartialEq, Eq, Structural)]
pub struct CrossTenantDenied;

/// The tenant an allocation is minted for: the process's own (or the
/// platform tenant, the empty name) when none is requested; the requested
/// one when it is the process's own, when the process is a root principal
/// (no tenant), or when it holds a `DelegateGrants` grant scoped to that
/// tenant (`delegated`, as the authority check found).
pub open spec fn serving_tenant_spec(
    own: Option<Seq<char>>,
    requested: Option<Seq<char>>,
    delegated: bool,
) -> Result<Seq<char>, CrossTenantDenied> {
    match requested {
        None => Ok(
            match own {
                Some(o) => o,
                None => Seq::empty(),
            },
        ),
        Some(t) => if own == Some(t) || own is None || delegated {
            Ok(t)
        } else {
            Err(CrossTenantDenied)
        },
    }
}

/// Decide the tenant a resource allocation serves.
pub fn authorize_serving_tenant(
    own: &Option<String>,
    requested: Option<&str>,
    delegated: bool,
) -> (r: Result<String, CrossTenantDenied>)
    ensures
        serving_tenant_spec(
            match *own {
                Some(o) => Some(o@),
                None => None,
            },
            match requested {
                Some(t) => Some(t@),
                None => None,
            },
            delegated,
        ) == match r {
            Ok(t) => Ok(t@),
            Err(e) => Err::<Seq<char>, CrossTenantDenied>(e),
        },
{
    let requested = match requested {
        None => {
            return Ok(
                match own {
                    Some(o) => o.clone(),
                    None => String::new(),
                },
            );
        },
        Some(t) => t,
    };
    let own_or_root = match own {
        Some(o) => same_text(o, requested),
        None => true,
    };
    if own_or_root || delegated {
        Ok(requested.to_owned())
    } else {
        Err(CrossTenantDenied)
    }
}

/// Bootstrap-only capabilities are never conferred on a child: whatever
/// the parent holds, child grants that confer `DelegateGrants`,
/// `MintCertificate` or `QuotaWrite` are denied.
pub proof fn lemma_bootstrap_only_never_conferred(
    parent: Seq<CapabilityGrant>,
    child: Seq<CapabilityGrant>,
    c: Capability,
)
    requires
        c == Capability::DelegateGrants || c == Capability::MintCertificate || c
            == Capability::QuotaWrite,
        confers(child, c),
    ensures
        verdict(parent, child) is BootstrapOnly,
{
}

/// An unscoped child grant never rides the delegation path: if some child
/// grant has no tenant-scoping selector, the grants are not admitted by
/// delegation, whatever the parent's scope.
pub proof fn lemma_unscoped_grant_not_delegated(
    parent: Seq<CapabilityGrant>,
    child: Seq<CapabilityGrant>,
    i: int,
)
    requires
        0 <= i < child.len(),
        forall|j: int| 0 <= j < child[i].selectors@.len() ==> #[trigger] selector_tenant(
            child[i].selectors@[j],
        ) is None,
    ensures
        verdict(parent, child) != ChildGrantVerdict::Delegated,
{
    match scope_of(parent) {
        Some(s) => {
            assert(!grant_scoped(s, child[i]));
        },
        None => {},
    }
}

/// A root delegator admits any tenant-scoped child grants that confer no
/// bootstrap-only capability.
pub proof fn lemma_root_delegator_admits_tenant_scoped(
    parent: Seq<CapabilityGrant>,
    child: Seq<CapabilityGrant>,
)
    requires
        delegates_root(parent),
        bootstrap_only(child) is None,
        forall|i: int| 0 <= i < child.len() ==> #[trigger] tenant_scoped(child[i]),
    ensures
        verdict(parent, child) == ChildGrantVerdict::Delegated,
{
    assert forall|i: int| 0 <= i < child.len() implies #[trigger] grant_scoped(ScopeView::Root, child[i]) by {
        assert(tenant_scoped(child[i]));
        let j = choose|j: int|
            0 <= j < child[i].selectors@.len() && #[trigger] selector_tenant(child[i].selectors@[j]) is Some;
        assert(in_scope(ScopeView::Root, child[i].selectors@[j]));
    }
}

/// The grant carries a tenant-scoping selector.
pub open spec fn tenant_scoped(g: CapabilityGrant) -> bool {
    exists|j: int| 0 <= j < g.selectors@.len() && #[trigger] selector_tenant(g.selectors@[j]) is Some
}

/// A tenant-scoped delegator cannot spawn a child in a tenant outside its
/// scope (other than its own).
pub proof fn lemma_foreign_tenant_denied(
    own: Option<Seq<char>>,
    requested: Seq<char>,
    grants: Seq<CapabilityGrant>,
)
    requires
        own != Some(requested),
        !delegates_root(grants),
        !delegated_tenants(grants).contains(requested),
    ensures
        spawn_tenant_spec(own, Some(requested), Some(grants)) == Err::<Option<Seq<char>>, SpawnTenantError>(
            SpawnTenantError::NotInScope,
        ),
{
}

// ---------------------------------------------------------------------
// Coverage of child grants by parent grants.
// ---------------------------------------------------------------------
/// A namespace covers another: the root covers every namespace, a tenant's
/// namespace only itself.
pub open spec fn namespace_covers(parent: Namespace, child: Namespace) -> bool {
    match parent {
        Namespace::Root => true,
        Namespace::Tenant(p) => child matches Namespace::Tenant(c) && c@ == p@,
    }
}

/// A child's selector satisfies a parent's: the same tenant; a namespace or
/// tenant within the parent's namespace; a URI prefix that extends the
/// parent's; the same locality scope; the same resource class; the same
/// resource; children for children.
pub open spec fn selector_covers(parent: ResourceSelector, child: ResourceSelector) -> bool {
    match parent {
        ResourceSelector::Tenant(p) => child matches ResourceSelector::Tenant(c) && c@ == p@,
        ResourceSelector::Namespace(ps) => match child {
            ResourceSelector::Namespace(cs) => namespace_covers(ps, cs),
            ResourceSelector::Tenant(c) => namespace_covers(ps, Namespace::Tenant(c)),
            _ => false,
        },
        ResourceSelector::UriPrefix(p) => child matches ResourceSelector::UriPrefix(c)
            && p@.is_prefix_of(c@),
        ResourceSelector::Locality(p) => child matches ResourceSelector::Locality(c) && c == p,
        ResourceSelector::ResourceClass(p) => child matches ResourceSelector::ResourceClass(c) && c
            == p,
        ResourceSelector::ExplicitResource(p) => child matches ResourceSelector::ExplicitResource(c)
            && c == p,
        ResourceSelector::Children => child is Children,
    }
}

/// Some selector of the child satisfies the parent's selector.
pub open spec fn selector_met(parent: ResourceSelector, child: Seq<ResourceSelector>) -> bool {
    exists|j: int| 0 <= j < child.len() && #[trigger] selector_covers(parent, child[j])
}

/// A parent grant covers a child grant: the same capability, and every
/// selector of the parent is satisfied by some selector of the child.
pub open spec fn covers(parent: CapabilityGrant, child: CapabilityGrant) -> bool {
    &&& parent.capability == child.capability
    &&& forall|i: int|
        0 <= i < parent.selectors@.len() ==> #[trigger] selector_met(
            parent.selectors@[i],
            child.selectors@,
        )
}

/// Some grant of the parent covers the child grant.
pub open spec fn covered_by(parent: Seq<CapabilityGrant>, child: CapabilityGrant) -> bool {
    exists|i: int| 0 <= i < parent.len() && #[trigger] covers(parent[i], child)
}

/// Whether a parent's namespace covers a child's.
fn namespace_covered(parent: &Namespace, child: &Namespace) -> (r: bool)
    ensures
        r == namespace_covers(*parent, *child),
{
    match parent {
        Namespace::Root => true,
        Namespace::Tenant(p) => match child {
            Namespace::Tenant(c) => same_text(c, p.as_str()),
            Namespace::Root => false,
        },
    }
}

/// Whether a child's selector satisfies a parent's.
fn selector_covered(parent: &ResourceSelector, child: &ResourceSelector) -> (r: bool)
    ensures
        r == selector_covers(*parent, *child),
{
    match parent {
        ResourceSelector::Tenant(p) => match child {
            ResourceSelector::Tenant(c) => same_text(c, p.as_str()),
            _ => false,
        },
        ResourceSelector::Namespace(ps) => match child {
            ResourceSelector::Namespace(cs) => namespace_covered(ps, cs),
            ResourceSelector::Tenant(c) => match ps {
                Namespace::Root => true,
                Namespace::Tenant(p) => same_text(c, p.as_str()),
            },
            _ => false,
        },
        ResourceSelector::UriPrefix(p) => match child {
            ResourceSelector::UriPrefix(c) => starts_with(c.as_str(), p.as_str()),
            _ => false,
        },
        ResourceSelector::Locality(p) => match child {
            ResourceSelector::Locality(c) => *c == *p,
            _ => false,
        },
        ResourceSelector::ResourceClass(p) => match child {
            ResourceSelector::ResourceClass(c) => *c == *p,
            _ => false,
        },
        ResourceSelector::ExplicitResource(p) => match child {
            ResourceSelector::ExplicitResource(c) => *c == *p,
            _ => false,
        },
        ResourceSelector::Children => match child {
            ResourceSelector::Children => true,
            _ => false,
        },
    }
}

/// Whether some selector of the child satisfies the parent's selector.
fn selector_met_by(parent: &ResourceSelector, child: &Vec<ResourceSelector>) -> (r: bool)
    ensures
        r == selector_met(*parent, child@),
{
    let mut j: usize = 0;
    while j < child.len()
        invariant
            j <= child@.len(),
            forall|m: int| 0 <= m < j ==> !#[trigger] selector_covers(*parent, child@[m]),
        decreases child@.len() - j,
    {
        if selector_covered(parent, &child[j]) {
            return true;
        }
        j = j + 1;
    }
    false
}

/// Whether a parent grant covers a child grant: the same capability, and
/// every selector of the parent satisfied by some selector of the child.
pub fn parent_grant_covers_child(parent: &CapabilityGrant, child: &CapabilityGrant) -> (r: bool)
    ensures
        r == covers(*parent, *child),
{
    if parent.capability != child.capability {
        return false;
    }
    let mut i: usize = 0;
    while i < parent.selectors.len()
        invariant
            i <= parent.selectors@.len(),
            parent.capability == child.capability,
            forall|k: int|
                0 <= k < i ==> #[trigger] selector_met(parent.selectors@[k], child.selectors@),
        decreases parent.selectors@.len() - i,
    {
        if !selector_met_by(&parent.selectors[i], &child.selectors) {
            return false;
        }
        i = i + 1;
    }
    true
}

/// Whether some grant of the parent covers the child grant.
fn covered_by_any(parent: &[CapabilityGrant], child: &CapabilityGrant) -> (r: bool)
    ensures
        r == covered_by(parent@, *child),
{
    let mut i: usize = 0;
    while i < parent.len()
        invariant
            i <= parent@.len(),
            forall|k: int| 0 <= k < i ==> !#[trigger] covers(parent@[k], *child),
        decreases parent@.len() - i,
    {
        if parent_grant_covers_child(&parent[i], child) {
            return true;
        }
        i = i + 1;
    }
    false
}

/// `c` is the capability of the first child grant that no parent grant
/// covers.
pub open spec fn first_uncovered(parent: Seq<CapabilityGrant>, child: Seq<CapabilityGrant>, c: Capability) -> bool {
    exists|j: int|
        0 <= j < child.len() && !#[trigger] covered_by(parent, child[j]) && child[j].capability == c
            && forall|k: int| 0 <= k < j ==> covered_by(parent, child[k])
}

/// Every child grant is covered by some grant of the parent.
pub open spec fn all_covered(parent: Seq<CapabilityGrant>, child: Seq<CapabilityGrant>) -> bool {
    forall|j: int| 0 <= j < child.len() ==> #[trigger] covered_by(parent, child[j])
}

/// Whether each child grant is covered by some grant of the parent; when
/// one is not, the capability of the first that is not.
pub fn check_subset(parent: &[CapabilityGrant], child: &[CapabilityGrant]) -> (r: Result<
    (),
    Capability,
>)
    ensures
        r is Ok <==> all_covered(parent@, child@),
        r matches Err(c) ==> first_uncovered(parent@, child@, c),
{
    let mut j: usize = 0;
    while j < child.len()
        invariant
            j <= child@.len(),
            forall|k: int| 0 <= k < j ==> #[trigger] covered_by(parent@, child@[k]),
        decreases child@.len() - j,
    {
        if !covered_by_any(parent, &child[j]) {
            assert(!covered_by(parent@, child@[j as int]));
            return Err(child[j].capability);
        }
        j = j + 1;
    }
    Ok(())
}

/// Why child grants are refused.
#[derive(Clone, Copy, Debug, PartialEq, Eq, Structural)]
pub enum ChildGrantDenial {
    /// The capability is bootstrap-provisioned only.
    BootstrapOnly(Capability),
    /// A child grant with this capability exceeds the parent's authority.
    ExceedsParent(Capability),
}

/// Admits or refuses child grants given the parent's grants: a
/// bootstrap-only capability is refused; grants all tenant-scoped within
/// the parent's delegation scope are admitted; otherwise each must be
/// covered by one of the parent's grants, and the first that is not is
/// refused.
pub fn validate_child_grants(parent: &[CapabilityGrant], child: &[CapabilityGrant]) -> (r: Result<
    (),
    ChildGrantDenial,
>)
    ensures
        match verdict(parent@, child@) {
            ChildGrantVerdict::BootstrapOnly(c) => r == Err::<(), ChildGrantDenial>(
                ChildGrantDenial::BootstrapOnly(c),
            ),
            ChildGrantVerdict::Delegated => r is Ok,
            ChildGrantVerdict::CheckSubset => {
                &&& r is Ok <==> all_covered(parent@, child@)
                &&& r matches Err(d) ==> d matches ChildGrantDenial::ExceedsParent(c)
                    && first_uncovered(parent@, child@, c)
            },
        },
{
    match child_grant_verdict(parent, child) {
        ChildGrantVerdict::BootstrapOnly(c) => Err(ChildGrantDenial::BootstrapOnly(c)),
        ChildGrantVerdict::Delegated => Ok(()),
        ChildGrantVerdict::CheckSubset => match check_subset(parent, child) {
            Ok(()) => Ok(()),
            Err(c) => Err(ChildGrantDenial::ExceedsParent(c)),
        },
    }
}

/// Every grant covers itself.
pub proof fn lemma_grant_covers_itself(g: CapabilityGrant)
    ensures
        covers(g, g),
{
    assert forall|i: int| 0 <= i < g.selectors@.len() implies #[trigger] selector_met(
        g.selectors@[i],
        g.selectors@,
    ) by {
        let s = g.selectors@[i];
        match s {
            ResourceSelector::UriPrefix(p) => {
                assert(p@ =~= p@.subrange(0, p@.len() as int));
            },
            _ => {},
        }
        assert(selector_covers(s, g.selectors@[i]));
    }
}

/// Authority only narrows: child grants each equal to one of the parent's
/// grants are all covered, so the subset check admits them.
pub proof fn lemma_own_grants_admitted(parent: Seq<CapabilityGrant>, child: Seq<CapabilityGrant>)
    requires
        forall|j: int| 0 <= j < child.len() ==> parent.contains(#[trigger] child[j]),
    ensures
        all_covered(parent, child),
{
    assert forall|j: int| 0 <= j < child.len() implies #[trigger] covered_by(parent, child[j]) by {
        let i = choose|i: int| 0 <= i < parent.len() && parent[i] == child[j];
        lemma_grant_covers_itself(child[j]);
        assert(covers(parent[i], child[j]));
    }
}

/// Coverage of selectors chains.
proof fn lemma_selector_covers_chain(a: ResourceSelector, b: ResourceSelector, c: ResourceSelector)
    requires
        selector_covers(a, b),
        selector_covers(b, c),
    ensures
        selector_covers(a, c),
{
    match a {
        ResourceSelector::UriPrefix(p) => {
            match b {
                ResourceSelector::UriPrefix(q) => {
                    match c {
                        ResourceSelector::UriPrefix(r) => {
                            assert(p@ =~= r@.subrange(0, p@.len() as int)) by {
                                assert forall|k: int| 0 <= k < p@.len() implies p@[k] == r@[k] by {
                                    assert(p@[k] == q@.subrange(0, p@.len() as int)[k]);
                                    assert(q@[k] == r@.subrange(0, q@.len() as int)[k]);
                                }
                            }
                        },
                        _ => {},
                    }
                },
                _ => {},
            }
        },
        _ => {},
    }
}

/// Coverage of grants chains: when a parent covers a child grant and that
/// grant covers a grandchild's, the parent covers the grandchild's, so a
/// chain of spawns never widens authority.
pub proof fn lemma_covers_chain(a: CapabilityGrant, b: CapabilityGrant, c: CapabilityGrant)
    requires
        covers(a, b),
        covers(b, c),
    ensures
        covers(a, c),
{
    assert forall|i: int| 0 <= i < a.selectors@.len() implies #[trigger] selector_met(
        a.selectors@[i],
        c.selectors@,
    ) by {
        assert(selector_met(a.selectors@[i], b.selectors@));
        let j = choose|j: int| 0 <= j < b.selectors@.len() && #[trigger] selector_covers(a.selectors@[i], b.selectors@[j]);
        assert(selector_met(b.selectors@[j], c.selectors@));
        let k = choose|k: int| 0 <= k < c.selectors@.len() && #[trigger] selector_covers(b.selectors@[j], c.selectors@[k]);
        lemma_selector_covers_chain(a.selectors@[i], b.selectors@[j], c.selectors@[k]);
    }
}

/// Subset checks chain: when every grant of a child is covered by its
/// parent's and every grant of a grandchild by the child's, every grant of
/// the grandchild is covered by the parent's.
pub proof fn lemma_all_covered_chain(
    parent: Seq<CapabilityGrant>,
    child: Seq<CapabilityGrant>,
    grandchild: Seq<CapabilityGrant>,
)
    requires
        all_covered(parent, child),
        all_covered(child, grandchild),
    ensures
        all_covered(parent, grandchild),
{
    assert forall|k: int| 0 <= k < grandchild.len() implies #[trigger] covered_by(
        parent,
        grandchild[k],
    ) by {
        assert(covered_by(child, grandchild[k]));
        let j = choose|j: int| 0 <= j < child.len() && #[trigger] covers(child[j], grandchild[k]);
        assert(covered_by(parent, child[j]));
        let i = choose|i: int| 0 <= i < parent.len() && #[trigger] covers(parent[i], child[j]);
        lemma_covers_chain(parent[i], child[j], grandchild[k]);
    }
}

// ---------------------------------------------------------------------
// Attaching shared regions.
// ---------------------------------------------------------------------
/// The selector names the shared region.
pub open spec fn selects_shared_region(sel: ResourceSelector, region_id: u64) -> bool {
    sel matches ResourceSelector::ExplicitResource(ResourceIdentity::Shared(id)) && id == region_id
}

/// The grant is a shared-memory grant naming the shared region.
pub open spec fn names_region(g: CapabilityGrant, region_id: u64) -> bool {
    &&& g.capability == Capability::SharedMemory
    &&& exists|j: int|
        0 <= j < g.selectors@.len() && #[trigger] selects_shared_region(g.selectors@[j], region_id)
}

/// Some shared-memory grant names the shared region explicitly.
pub open spec fn explicit_region_grant(grants: Seq<CapabilityGrant>, region_id: u64) -> bool {
    exists|i: int| 0 <= i < grants.len() && #[trigger] names_region(grants[i], region_id)
}

/// Whether a grant is a shared-memory grant naming the region.
fn grant_names_region(grant: &CapabilityGrant, region_id: u64) -> (r: bool)
    ensures
        r == names_region(*grant, region_id),
{
    if grant.capability != Capability::SharedMemory {
        return false;
    }
    let mut j: usize = 0;
    while j < grant.selectors.len()
        invariant
            j <= grant.selectors@.len(),
            grant.capability == Capability::SharedMemory,
            forall|m: int|
                0 <= m < j ==> !#[trigger] selects_shared_region(grant.selectors@[m], region_id),
        decreases grant.selectors@.len() - j,
    {
        let hit = match &grant.selectors[j] {
            ResourceSelector::ExplicitResource(ResourceIdentity::Shared(id)) => *id == region_id,
            _ => false,
        };
        if hit {
            assert(selects_shared_region(grant.selectors@[j as int], region_id));
            return true;
        }
        j = j + 1;
    }
    false
}

/// Whether the value occurs in the list.
fn holds(list: &[u64], v: u64) -> (r: bool)
    ensures
        r == list@.contains(v),
{
    let mut i: usize = 0;
    while i < list.len()
        invariant
            i <= list@.len(),
            forall|k: int| 0 <= k < i ==> list@[k] != v,
        decreases list@.len() - i,
    {
        if list[i] == v {
            assert(list@[i as int] == v);
            return true;
        }
        i = i + 1;
    }
    false
}

/// Whether a process may attach a shared region: it owns the region (it is
/// among `owners`), one of its `grants` is a shared-memory grant naming the
/// region explicitly, or it resolved the region through discovery (the
/// region is among `resolved`).
pub fn attach_authorised(
    owners: &[u64],
    grants: &[CapabilityGrant],
    resolved: &[u64],
    process_id: u64,
    region_id: u64,
) -> (r: bool)
    ensures
        r == (owners@.contains(process_id) || explicit_region_grant(grants@, region_id)
            || resolved@.contains(region_id)),
{
    if holds(owners, process_id) {
        return true;
    }
    let mut i: usize = 0;
    while i < grants.len()
        invariant
            i <= grants@.len(),
            forall|k: int| 0 <= k < i ==> !#[trigger] names_region(grants@[k], region_id),
        decreases grants@.len() - i,
    {
        if grant_names_region(&grants[i], region_id) {
            return true;
        }
        i = i + 1;
    }
    holds(resolved, region_id)
}

} // verus!
