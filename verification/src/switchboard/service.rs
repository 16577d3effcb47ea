//! The switchboard service's decisions when it applies a solution.
//!
//! Channels that already exist are reused where they can be: for each
//! channel of the solution, in order, an existing channel with exactly the
//! same key is taken, or else the best compatible one; what is left over is
//! released. Then every flow of every route is wired into its producer's
//! outbound list and its consumer's inbound list, each list sorted by
//! channel handle and holding one entry per channel.
use std::collections::HashMap;
use vstd::prelude::*;

use super::keys::{best_compatible_match, is_best_match, key_views, ChannelKey, KeyView};
use super::protocol::{EndpointDirections, EndpointId, Message, WiringEgress, WiringIngress};
use super::solver::{
    avoids, intents_wf, other_than, FlowRoute, Intent, IntentRoute, Solution, Solver,
    SwitchboardCore, SwitchboardError,
};

verus! {

broadcast use vstd::std_specs::hash::group_hash_axioms;

// ---------------------------------------------------------------------
// Reusing channels.
// ---------------------------------------------------------------------
/// What to do for one channel of a solution.
#[derive(Clone, Copy, Debug, PartialEq, Eq, Structural)]
pub enum ChannelAction {
    /// Reuse the existing channel at this position of the available list.
    Reuse(usize),
    /// Create a new channel.
    Create,
}

/// The channel decisions for a solution.
#[derive(Clone, Debug, PartialEq, Eq)]
pub struct ChannelPlan {
    /// One action per channel of the solution, in order.
    pub actions: Vec<ChannelAction>,
    /// The positions of the available channels that nothing reuses, in the
    /// order they are released.
    pub released: Vec<usize>,
}

/// The channels still available, each with its position in the list of
/// existing channels.
pub type Pool = Seq<(usize, KeyView)>;

/// The keys of a pool.
pub open spec fn pool_keys(pool: Pool) -> Seq<KeyView> {
    pool.map_values(|e: (usize, KeyView)| e.1)
}

/// `i` is the first pool entry with exactly the key `d`.
pub open spec fn first_exact(pool: Pool, d: KeyView, i: int) -> bool {
    &&& 0 <= i < pool.len()
    &&& pool[i].1 == d
    &&& forall|j: int| 0 <= j < i ==> pool[j].1 != d
}

/// The pool entry to reuse for the desired key `d`: the first with exactly
/// that key, else the best compatible one, else none.
pub open spec fn pick(pool: Pool, d: KeyView) -> Option<int> {
    if exists|i: int| first_exact(pool, d, i) {
        Some(choose|i: int| first_exact(pool, d, i))
    } else if exists|i: int| is_best_match(pool_keys(pool), d, i) {
        Some(choose|i: int| is_best_match(pool_keys(pool), d, i))
    } else {
        None
    }
}

/// The pool after taking entry `i` out as `Vec::swap_remove` does: the last
/// entry moves into its place.
pub open spec fn swap_removed(pool: Pool, i: int) -> Pool {
    pool.update(i, pool.last()).drop_last()
}

/// The actions for the desired keys, in order, and the pool that is left.
pub open spec fn reuse_plan(pool: Pool, desired: Seq<KeyView>) -> (Seq<ChannelAction>, Pool)
    decreases desired.len(),
{
    if desired.len() == 0 {
        (Seq::empty(), pool)
    } else {
        match pick(pool, desired[0]) {
            Some(i) => {
                let rest = reuse_plan(swap_removed(pool, i), desired.drop_first());
                (seq![ChannelAction::Reuse(pool[i].0)] + rest.0, rest.1)
            },
            None => {
                let rest = reuse_plan(pool, desired.drop_first());
                (seq![ChannelAction::Create] + rest.0, rest.1)
            },
        }
    }
}

/// The available keys, each with its position.
pub open spec fn initial_pool(keys: Seq<KeyView>) -> Pool {
    Seq::new(keys.len(), |i: int| (i as usize, keys[i]))
}

/// The plan is the one [`reuse_plan`] gives, with the released positions
/// those of the pool that is left.
pub open spec fn plan_matches(available: Seq<KeyView>, desired: Seq<KeyView>, plan: ChannelPlan) -> bool {
    let (actions, left) = reuse_plan(initial_pool(available), desired);
    &&& plan.actions@ == actions
    &&& plan.released@ == left.map_values(|e: (usize, KeyView)| e.0)
}

/// At most one key is the best compatible match.
proof fn lemma_best_unique(keys: Seq<KeyView>, d: KeyView, i: int, j: int)
    requires
        is_best_match(keys, d, i),
        is_best_match(keys, d, j),
    ensures
        i == j,
{
}

/// At most one entry is the first with a key.
proof fn lemma_first_unique(pool: Pool, d: KeyView, i: int, j: int)
    requires
        first_exact(pool, d, i),
        first_exact(pool, d, j),
    ensures
        i == j,
{
}

/// The views of a pool held as positions and keys.
spec fn pool_view(pos: Seq<usize>, keys: Seq<ChannelKey>) -> Pool {
    Seq::new(pos.len(), |i: int| (pos[i], keys[i]@))
}

/// Decide, for each channel of a solution, whether an existing channel is
/// reused (and which) or a new one created, and which existing channels are
/// released.
pub fn plan_channel_reuse(available: &[ChannelKey], desired: &[ChannelKey]) -> (r: ChannelPlan)
    ensures
        plan_matches(key_views(available@), key_views(desired@), r),
{
    let ghost full = reuse_plan(initial_pool(key_views(available@)), key_views(desired@));
    let mut positions: Vec<usize> = Vec::new();
    let mut keys: Vec<ChannelKey> = Vec::new();
    let mut i: usize = 0;
    while i < available.len()
        invariant
            i <= available@.len(),
            positions@.len() == i,
            keys@.len() == i,
            forall|k: int| 0 <= k < i ==> #[trigger] positions@[k] == k as usize && keys@[k]@ == available@[k]@,
        decreases available@.len() - i,
    {
        positions.push(i);
        keys.push(available[i].clone());
        i = i + 1;
    }
    assert(pool_view(positions@, keys@) =~= initial_pool(key_views(available@)));
    let mut actions: Vec<ChannelAction> = Vec::new();
    assert(key_views(desired@).skip(0) =~= key_views(desired@));
    assert(actions@ + full.0 =~= full.0);
    let mut k: usize = 0;
    while k < desired.len()
        invariant
            k <= desired@.len(),
            positions@.len() == keys@.len(),
            full == reuse_plan(initial_pool(key_views(available@)), key_views(desired@)),
            ({
                let rest = reuse_plan(pool_view(positions@, keys@), key_views(desired@).skip(k as int));
                &&& actions@ + rest.0 == full.0
                &&& rest.1 == full.1
            }),
        decreases desired@.len() - k,
    {
        let d = &desired[k];
        let ghost pool = pool_view(positions@, keys@);
        let ghost ds = key_views(desired@).skip(k as int);
        proof {
            assert(ds[0] == d@);
            assert(ds.drop_first() =~= key_views(desired@).skip(k + 1));
            assert(pool_keys(pool) =~= key_views(keys@));
        }
        // The first exact match, if any.
        let mut e: usize = 0;
        while e < keys.len() && !keys[e].same_as(d)
            invariant
                e <= keys@.len(),
                positions@.len() == keys@.len(),
                pool == pool_view(positions@, keys@),
                forall|j: int| 0 <= j < e ==> pool[j].1 != d@,
            decreases keys@.len() - e,
        {
            e = e + 1;
        }
        let choice: Option<usize> = if e < keys.len() {
            proof {
                assert(first_exact(pool, d@, e as int));
                lemma_first_unique_choose(pool, d@, e as int);
            }
            Some(e)
        } else {
            proof {
                assert(!exists|i: int| first_exact(pool, d@, i));
            }
            let found = best_compatible_match(keys.as_slice(), d);
            proof {
                match found {
                    Some(b) => {
                        lemma_best_unique_choose(pool_keys(pool), d@, b as int);
                    },
                    None => {
                        assert(!exists|i: int| is_best_match(pool_keys(pool), d@, i));
                    },
                }
            }
            found
        };
        match choice {
            Some(p) => {
                let existing = positions[p];
                actions.push(ChannelAction::Reuse(existing));
                positions.swap_remove(p);
                keys.swap_remove(p);
                proof {
                    assert(pool_view(positions@, keys@) =~= swap_removed(pool, p as int));
                }
            },
            None => {
                actions.push(ChannelAction::Create);
            },
        }
        proof {
            let rest = reuse_plan(pool, ds);
            assert(actions@ + reuse_plan(pool_view(positions@, keys@), ds.drop_first()).0 =~= full.0);
        }
        k = k + 1;
    }
    proof {
        assert(key_views(desired@).skip(desired@.len() as int).len() == 0);
        assert(actions@ =~= full.0);
    }
    let released = positions;
    assert(released@ =~= full.1.map_values(|e: (usize, KeyView)| e.0));
    ChannelPlan { actions, released }
}

/// The first exact entry is the one `pick` chooses.
proof fn lemma_first_unique_choose(pool: Pool, d: KeyView, i: int)
    requires
        first_exact(pool, d, i),
    ensures
        pick(pool, d) == Some(i),
{
    let c = choose|j: int| first_exact(pool, d, j);
    lemma_first_unique(pool, d, i, c);
}

/// The best compatible entry is the one `pick` chooses when there is no
/// exact one.
proof fn lemma_best_unique_choose(keys: Seq<KeyView>, d: KeyView, i: int)
    requires
        is_best_match(keys, d, i),
    ensures
        (choose|j: int| is_best_match(keys, d, j)) == i,
{
    let c = choose|j: int| is_best_match(keys, d, j);
    lemma_best_unique(keys, d, i, c);
}

// ---------------------------------------------------------------------
// Wiring.
// ---------------------------------------------------------------------
/// The wiring one endpoint is sent.
#[derive(Clone, Debug, PartialEq, Eq)]
pub struct EndpointWiring {
    /// Flows into the endpoint, one per channel, by channel handle.
    pub inbound: Vec<WiringIngress>,
    /// Flows out of the endpoint, one per channel, by channel handle.
    pub outbound: Vec<WiringEgress>,
}

/// A link: a channel handle and the endpoint at the other end.
pub type Link = (u64, EndpointId);

/// Every flow of every route, in order.
pub open spec fn all_flows(routes: Seq<IntentRoute>) -> Seq<FlowRoute>
    decreases routes.len(),
{
    if routes.len() == 0 {
        Seq::empty()
    } else {
        all_flows(routes.drop_last()) + routes.last().flows@
    }
}

/// The links into `e`: the handle of each flow's channel with its producer.
pub open spec fn in_links(flows: Seq<FlowRoute>, handles: Seq<u64>, e: EndpointId) -> Set<Link> {
    Set::new(
        |l: Link|
            exists|k: int|
                0 <= k < flows.len() && #[trigger] flows[k].consumer == e && handles[flows[k].channel as int]
                    == l.0 && flows[k].producer == l.1,
    )
}

/// The links out of `e`: the handle of each flow's channel with its
/// consumer.
pub open spec fn out_links(flows: Seq<FlowRoute>, handles: Seq<u64>, e: EndpointId) -> Set<Link> {
    Set::new(
        |l: Link|
            exists|k: int|
                0 <= k < flows.len() && #[trigger] flows[k].producer == e && handles[flows[k].channel as int]
                    == l.0 && flows[k].consumer == l.1,
    )
}

/// `s` lists the links of `p` one per channel, in increasing channel
/// order, each with the smallest endpoint linked over that channel.
pub open spec fn canonical(p: Set<Link>, s: Seq<Link>) -> bool {
    &&& forall|a: int, b: int| 0 <= a < b < s.len() ==> s[a].0 < s[b].0
    &&& forall|a: int|
        0 <= a < s.len() ==> p.contains(#[trigger] s[a]) && forall|x: EndpointId|
            p.contains((s[a].0, x)) ==> s[a].1 <= x
    &&& forall|l: Link| p.contains(l) ==> lists_channel(s, l.0)
}

/// Some link of `s` is over the channel `ch`.
#[verifier::opaque]
pub open spec fn lists_channel(s: Seq<Link>, ch: u64) -> bool {
    exists|a: int| 0 <= a < s.len() && #[trigger] s[a].0 == ch
}

/// The links of an inbound list.
pub open spec fn ingress_links(s: Seq<WiringIngress>) -> Seq<Link> {
    s.map_values(|w: WiringIngress| (w.channel, w.from))
}

/// The links of an outbound list.
pub open spec fn egress_links(s: Seq<WiringEgress>) -> Seq<Link> {
    s.map_values(|w: WiringEgress| (w.channel, w.to))
}

/// Some flow starts or ends at `e`.
pub open spec fn touched(flows: Seq<FlowRoute>, e: EndpointId) -> bool {
    exists|k: int| 0 <= k < flows.len() && (#[trigger] flows[k].producer == e || flows[k].consumer == e)
}

/// The wiring of every endpoint some flow touches, and of no other.
pub open spec fn wiring_ok(
    flows: Seq<FlowRoute>,
    handles: Seq<u64>,
    w: Map<EndpointId, EndpointWiring>,
) -> bool {
    &&& forall|e: EndpointId| #[trigger] w.contains_key(e) <==> touched(flows, e)
    &&& forall|e: EndpointId|
        #[trigger] w.contains_key(e) ==> canonical(in_links(flows, handles, e), ingress_links(w[e].inbound@))
            && canonical(out_links(flows, handles, e), egress_links(w[e].outbound@))
}

/// Adding a link whose channel is already listed at `a`: the smaller peer
/// stays.
proof fn lemma_canonical_update(p: Set<Link>, s: Seq<Link>, a: int, ch: u64, peer: EndpointId, t: Seq<Link>)
    requires
        canonical(p, s),
        0 <= a < s.len(),
        s[a].0 == ch,
        t == (if peer < s[a].1 { s.update(a, (ch, peer)) } else { s }),
    ensures
        canonical(p.insert((ch, peer)), t),
{
    let q = p.insert((ch, peer));
    assert forall|b: int| 0 <= b < t.len() implies q.contains(#[trigger] t[b]) && forall|x: EndpointId|
        q.contains((t[b].0, x)) ==> t[b].1 <= x by {
        if b != a {
            assert(t[b] == s[b]);
            assert(s[b].0 != ch) by {
                if b < a {
                    assert(s[b].0 < s[a].0);
                } else {
                    assert(s[a].0 < s[b].0);
                }
            }
            assert(p.contains(s[b]));
        } else {
            assert(p.contains(s[a]));
        }
    }
    assert forall|l: Link| q.contains(l) implies lists_channel(t, l.0) by {
        reveal(lists_channel);
        if l == (ch, peer) {
            assert(t[a].0 == l.0);
        } else {
            assert(p.contains(l));
            assert(lists_channel(s, l.0));
            let c = choose|c: int| 0 <= c < s.len() && #[trigger] s[c].0 == l.0;
            assert(t[c].0 == l.0);
        }
    }
}

/// Adding a link over a channel that is not listed, at the position `a`
/// that keeps the list in order.
proof fn lemma_canonical_insert(p: Set<Link>, s: Seq<Link>, a: int, ch: u64, peer: EndpointId)
    requires
        canonical(p, s),
        0 <= a <= s.len(),
        forall|j: int| 0 <= j < a ==> s[j].0 < ch,
        a < s.len() ==> s[a].0 > ch,
    ensures
        canonical(p.insert((ch, peer)), s.insert(a, (ch, peer))),
{
    let q = p.insert((ch, peer));
    let t = s.insert(a, (ch, peer));
    assert forall|x: int, y: int| 0 <= x < y < t.len() implies t[x].0 < t[y].0 by {
        if y < a {
        } else if x < a && y == a {
        } else if x < a {
            assert(t[y] == s[y - 1]);
            if y - 1 > a {
                assert(s[a].0 < s[y - 1].0);
            }
        } else if x == a {
            assert(t[y] == s[y - 1]);
            if y - 1 > a {
                assert(s[a].0 < s[y - 1].0);
            }
        } else {
            assert(t[x] == s[x - 1]);
            assert(t[y] == s[y - 1]);
        }
    }
    assert forall|l: Link| p.contains(l) implies l.0 != ch by {
        reveal(lists_channel);
        assert(lists_channel(s, l.0));
        let c = choose|c: int| 0 <= c < s.len() && #[trigger] s[c].0 == l.0;
        if c > a {
            assert(s[a].0 < s[c].0);
        }
    }
    assert forall|b: int| 0 <= b < t.len() implies q.contains(#[trigger] t[b]) && forall|x: EndpointId|
        q.contains((t[b].0, x)) ==> t[b].1 <= x by {
        if b != a {
            let o = if b < a { b } else { b - 1 };
            assert(t[b] == s[o]);
            assert(p.contains(s[o]));
            assert(s[o].0 != ch);
        }
    }
    assert forall|l: Link| q.contains(l) implies lists_channel(t, l.0) by {
        reveal(lists_channel);
        if l == (ch, peer) {
            assert(t[a].0 == l.0);
        } else {
            assert(lists_channel(s, l.0));
            let c = choose|c: int| 0 <= c < s.len() && #[trigger] s[c].0 == l.0;
            if c < a {
                assert(t[c].0 == l.0);
            } else {
                assert(t[c + 1].0 == l.0);
            }
        }
    }
}

/// Add the link `(ch, peer)` to a canonical list.
fn insert_link(list: &mut Vec<Link>, ch: u64, peer: EndpointId, Ghost(p): Ghost<Set<Link>>)
    requires
        canonical(p, old(list)@),
    ensures
        canonical(p.insert((ch, peer)), final(list)@),
{
    let ghost s = list@;
    let mut a: usize = 0;
    while a < list.len() && list[a].0 < ch
        invariant
            a <= list@.len(),
            list@ == s,
            forall|j: int| 0 <= j < a ==> s[j].0 < ch,
        decreases list@.len() - a,
    {
        a = a + 1;
    }
    if a < list.len() && list[a].0 == ch {
        if peer < list[a].1 {
            list.set(a, (ch, peer));
        }
        proof {
            lemma_canonical_update(p, s, a as int, ch, peer, list@);
        }
    } else {
        list.insert(a, (ch, peer));
        proof {
            lemma_canonical_insert(p, s, a as int, ch, peer);
        }
    }
}

proof fn lemma_links_push(flows: Seq<FlowRoute>, handles: Seq<u64>, f: FlowRoute, e: EndpointId)
    ensures
        in_links(flows.push(f), handles, e) == (if f.consumer == e {
            in_links(flows, handles, e).insert((handles[f.channel as int], f.producer))
        } else {
            in_links(flows, handles, e)
        }),
        out_links(flows.push(f), handles, e) == (if f.producer == e {
            out_links(flows, handles, e).insert((handles[f.channel as int], f.consumer))
        } else {
            out_links(flows, handles, e)
        }),
        touched(flows.push(f), e) == (touched(flows, e) || f.producer == e || f.consumer == e),
{
    let g = flows.push(f);
    let n = flows.len() as int;
    assert(g[n] == f);
    assert forall|k: int| 0 <= k < n implies g[k] == flows[k] by {}
    let a = in_links(g, handles, e);
    let b = if f.consumer == e {
        in_links(flows, handles, e).insert((handles[f.channel as int], f.producer))
    } else {
        in_links(flows, handles, e)
    };
    assert forall|l: Link| a.contains(l) <==> b.contains(l) by {
        if a.contains(l) {
            let k = choose|k: int|
                0 <= k < g.len() && #[trigger] g[k].consumer == e && handles[g[k].channel as int]
                    == l.0 && g[k].producer == l.1;
            if k < n {
                assert(flows[k].consumer == e);
            }
        }
        if in_links(flows, handles, e).contains(l) {
            let k = choose|k: int|
                0 <= k < flows.len() && #[trigger] flows[k].consumer == e && handles[flows[k].channel as int]
                    == l.0 && flows[k].producer == l.1;
            assert(g[k].consumer == e);
        }
        if f.consumer == e && l == (handles[f.channel as int], f.producer) {
            assert(g[n].consumer == e);
        }
    }
    assert(a =~= b);
    let c = out_links(g, handles, e);
    let d = if f.producer == e {
        out_links(flows, handles, e).insert((handles[f.channel as int], f.consumer))
    } else {
        out_links(flows, handles, e)
    };
    assert forall|l: Link| c.contains(l) <==> d.contains(l) by {
        if c.contains(l) {
            let k = choose|k: int|
                0 <= k < g.len() && #[trigger] g[k].producer == e && handles[g[k].channel as int]
                    == l.0 && g[k].consumer == l.1;
            if k < n {
                assert(flows[k].producer == e);
            }
        }
        if out_links(flows, handles, e).contains(l) {
            let k = choose|k: int|
                0 <= k < flows.len() && #[trigger] flows[k].producer == e && handles[flows[k].channel as int]
                    == l.0 && flows[k].consumer == l.1;
            assert(g[k].producer == e);
        }
        if f.producer == e && l == (handles[f.channel as int], f.consumer) {
            assert(g[n].producer == e);
        }
    }
    assert(c =~= d);
    if touched(g, e) {
        let k = choose|k: int| 0 <= k < g.len() && (#[trigger] g[k].producer == e || g[k].consumer == e);
        if k < n {
            assert(flows[k].producer == e || flows[k].consumer == e);
        }
    }
    if touched(flows, e) {
        let k = choose|k: int| 0 <= k < flows.len() && (#[trigger] flows[k].producer == e || flows[k].consumer == e);
        assert(g[k].producer == e || g[k].consumer == e);
    }
    if f.producer == e || f.consumer == e {
        assert(g[n].producer == e || g[n].consumer == e);
    }
}

/// Adding a new element keeps a list free of duplicates.
proof fn lemma_push_unique(s: Seq<EndpointId>, x: EndpointId)
    requires
        s.no_duplicates(),
        !s.contains(x),
    ensures
        s.push(x).no_duplicates(),
{
    let t = s.push(x);
    assert forall|i: int, j: int| 0 <= i < t.len() && 0 <= j < t.len() && i != j implies t[i] != t[j] by {
        if i == s.len() {
            assert(s.contains(s[j]));
        } else if j == s.len() {
            assert(s.contains(s[i]));
        } else {
            assert(t[i] == s[i] && t[j] == s[j]);
        }
    }
}

/// The inbound list of a canonical list of links.
fn ingress_list(links: &Vec<Link>) -> (r: Vec<WiringIngress>)
    ensures
        ingress_links(r@) == links@,
{
    let mut out: Vec<WiringIngress> = Vec::new();
    let mut i: usize = 0;
    while i < links.len()
        invariant
            i <= links@.len(),
            out@.len() == i,
            forall|k: int| 0 <= k < i ==> (#[trigger] out@[k]).channel == links@[k].0 && out@[k].from == links@[k].1,
        decreases links@.len() - i,
    {
        out.push(WiringIngress { from: links[i].1, channel: links[i].0 });
        i = i + 1;
    }
    assert(ingress_links(out@) =~= links@);
    out
}

/// The outbound list of a canonical list of links.
fn egress_list(links: &Vec<Link>) -> (r: Vec<WiringEgress>)
    ensures
        egress_links(r@) == links@,
{
    let mut out: Vec<WiringEgress> = Vec::new();
    let mut i: usize = 0;
    while i < links.len()
        invariant
            i <= links@.len(),
            out@.len() == i,
            forall|k: int| 0 <= k < i ==> (#[trigger] out@[k]).channel == links@[k].0 && out@[k].to == links@[k].1,
        decreases links@.len() - i,
    {
        out.push(WiringEgress { to: links[i].1, channel: links[i].0 });
        i = i + 1;
    }
    assert(egress_links(out@) =~= links@);
    out
}

/// The links so far: both lists of every endpoint touched are canonical.
spec fn links_ok(
    flows: Seq<FlowRoute>,
    handles: Seq<u64>,
    links: Map<EndpointId, (Vec<Link>, Vec<Link>)>,
) -> bool {
    &&& forall|e: EndpointId| #[trigger] links.contains_key(e) <==> touched(flows, e)
    &&& forall|e: EndpointId|
        #[trigger] links.contains_key(e) ==> canonical(in_links(flows, handles, e), links[e].0@)
            && canonical(out_links(flows, handles, e), links[e].1@)
}

/// Route every flow through the handle of its channel: into the
/// producer's outbound list and the consumer's inbound list. A flow whose
/// channel has no handle makes the solution unsolveable.
pub fn build_wiring(routes: &[IntentRoute], handles: &[u64]) -> (r: Result<
    HashMap<EndpointId, EndpointWiring>,
    SwitchboardError,
>)
    ensures
        match r {
            Err(e) => e == SwitchboardError::Unsolveable && exists|i: int, j: int|
                0 <= i < routes@.len() && 0 <= j < routes@[i].flows@.len()
                    && #[trigger] routes@[i].flows@[j].channel >= handles@.len(),
            Ok(w) => {
                &&& forall|i: int, j: int|
                    0 <= i < routes@.len() && 0 <= j < routes@[i].flows@.len()
                        ==> #[trigger] routes@[i].flows@[j].channel < handles@.len()
                &&& wiring_ok(all_flows(routes@), handles@, w@)
            },
        },
{
    let ghost hs = handles@;
    let mut links: HashMap<EndpointId, (Vec<Link>, Vec<Link>)> = HashMap::new();
    let mut ids: Vec<EndpointId> = Vec::new();
    let ghost mut fs: Seq<FlowRoute> = Seq::empty();
    let mut ri: usize = 0;
    while ri < routes.len()
        invariant
            ri <= routes@.len(),
            hs == handles@,
            fs == all_flows(routes@.take(ri as int)),
            links_ok(fs, hs, links@),
            forall|e: EndpointId| links@.contains_key(e) <==> ids@.contains(e),
            ids@.no_duplicates(),
            forall|i: int, j: int|
                0 <= i < ri && 0 <= j < routes@[i].flows@.len()
                    ==> #[trigger] routes@[i].flows@[j].channel < handles@.len(),
        decreases routes@.len() - ri,
    {
        let route = &routes[ri];
        let ghost base = fs;
        let mut fj: usize = 0;
        while fj < route.flows.len()
            invariant
                ri < routes@.len(),
                route == routes@[ri as int],
                fj <= route.flows@.len(),
                hs == handles@,
                base == all_flows(routes@.take(ri as int)),
                fs == base + route.flows@.take(fj as int),
                links_ok(fs, hs, links@),
                forall|e: EndpointId| links@.contains_key(e) <==> ids@.contains(e),
                ids@.no_duplicates(),
                forall|i: int, j: int|
                    0 <= i < ri && 0 <= j < routes@[i].flows@.len()
                        ==> #[trigger] routes@[i].flows@[j].channel < handles@.len(),
                forall|j: int| 0 <= j < fj ==> #[trigger] route.flows@[j].channel < handles@.len(),
            decreases route.flows@.len() - fj,
        {
            let flow = route.flows[fj];
            if flow.channel >= handles.len() {
                assert(routes@[ri as int].flows@[fj as int].channel >= handles@.len());
                return Err(SwitchboardError::Unsolveable);
            }
            let handle = handles[flow.channel];
            let ghost next = fs.push(flow);
            proof {
                lemma_links_push(fs, hs, flow, flow.producer);
                lemma_links_push(fs, hs, flow, flow.consumer);
                assert forall|e: EndpointId| e != flow.producer && e != flow.consumer implies {
                    &&& in_links(next, hs, e) == in_links(fs, hs, e)
                    &&& out_links(next, hs, e) == out_links(fs, hs, e)
                    &&& touched(next, e) == touched(fs, e)
                } by {
                    lemma_links_push(fs, hs, flow, e);
                }
            }
            // The producer's outbound list.
            let ghost ids_before = ids@;
            let ghost links_before = links@;
            let mut entry = match links.remove(&flow.producer) {
                Some(e) => e,
                None => {
                    proof {
                        lemma_push_unique(ids@, flow.producer);
                    }
                    ids.push(flow.producer);
                    assert(in_links(fs, hs, flow.producer) =~= Set::empty()) by {
                        if exists|l: Link| in_links(fs, hs, flow.producer).contains(l) {
                            let l = choose|l: Link| in_links(fs, hs, flow.producer).contains(l);
                            let k = choose|k: int|
                                0 <= k < fs.len() && #[trigger] fs[k].consumer == flow.producer
                                    && hs[fs[k].channel as int] == l.0 && fs[k].producer == l.1;
                            assert(touched(fs, flow.producer));
                        }
                    }
                    assert(out_links(fs, hs, flow.producer) =~= Set::empty()) by {
                        if exists|l: Link| out_links(fs, hs, flow.producer).contains(l) {
                            let l = choose|l: Link| out_links(fs, hs, flow.producer).contains(l);
                            let k = choose|k: int|
                                0 <= k < fs.len() && #[trigger] fs[k].producer == flow.producer
                                    && hs[fs[k].channel as int] == l.0 && fs[k].consumer == l.1;
                            assert(touched(fs, flow.producer));
                        }
                    }
                    (Vec::new(), Vec::new())
                },
            };
            insert_link(&mut entry.1, handle, flow.consumer, Ghost(out_links(fs, hs, flow.producer)));
            links.insert(flow.producer, entry);
            proof {
                assert forall|e: EndpointId| links@.contains_key(e) <==> ids@.contains(e) by {
                    if e == flow.producer {
                        assert(ids@.contains(e)) by {
                            if !ids_before.contains(e) {
                                assert(ids@[ids@.len() - 1] == e);
                            } else {
                                let j = choose|j: int| 0 <= j < ids_before.len() && ids_before[j] == e;
                                assert(ids@[j] == e);
                            }
                        }
                    } else {
                        if ids@.contains(e) {
                            let j = choose|j: int| 0 <= j < ids@.len() && ids@[j] == e;
                            if j < ids_before.len() {
                                assert(ids_before[j] == e);
                            }
                        }
                        if ids_before.contains(e) {
                            let j = choose|j: int| 0 <= j < ids_before.len() && ids_before[j] == e;
                            assert(ids@[j] == e);
                        }
                    }
                }
            }
            // The consumer's inbound list.
            let ghost mid = links@;
            let ghost ids_mid = ids@;
            let mut entry = match links.remove(&flow.consumer) {
                Some(e) => e,
                None => {
                    proof {
                        lemma_push_unique(ids@, flow.consumer);
                    }
                    ids.push(flow.consumer);
                    assert(in_links(fs, hs, flow.consumer) =~= Set::empty()) by {
                        if exists|l: Link| in_links(fs, hs, flow.consumer).contains(l) {
                            let l = choose|l: Link| in_links(fs, hs, flow.consumer).contains(l);
                            let k = choose|k: int|
                                0 <= k < fs.len() && #[trigger] fs[k].consumer == flow.consumer
                                    && hs[fs[k].channel as int] == l.0 && fs[k].producer == l.1;
                            assert(touched(fs, flow.consumer));
                        }
                    }
                    assert(out_links(fs, hs, flow.consumer) =~= Set::empty()) by {
                        if exists|l: Link| out_links(fs, hs, flow.consumer).contains(l) {
                            let l = choose|l: Link| out_links(fs, hs, flow.consumer).contains(l);
                            let k = choose|k: int|
                                0 <= k < fs.len() && #[trigger] fs[k].producer == flow.consumer
                                    && hs[fs[k].channel as int] == l.0 && fs[k].consumer == l.1;
                            assert(touched(fs, flow.consumer));
                        }
                    }
                    (Vec::new(), Vec::new())
                },
            };
            let ghost in_before = if flow.consumer == flow.producer {
                in_links(fs, hs, flow.consumer)
            } else {
                in_links(fs, hs, flow.consumer)
            };
            insert_link(&mut entry.0, handle, flow.producer, Ghost(in_links(fs, hs, flow.consumer)));
            links.insert(flow.consumer, entry);
            proof {
                fs = next;
                assert(links_ok(fs, hs, links@)) by {
                    assert forall|e: EndpointId| #[trigger] links@.contains_key(e) <==> touched(fs, e) by {
                        if e != flow.producer && e != flow.consumer {
                            assert(links@.contains_key(e) == mid.contains_key(e));
                        }
                    }
                    assert forall|e: EndpointId| #[trigger] links@.contains_key(e) implies canonical(
                        in_links(fs, hs, e),
                        links@[e].0@,
                    ) && canonical(out_links(fs, hs, e), links@[e].1@) by {
                        if e != flow.producer && e != flow.consumer {
                            assert(links@[e] == mid[e]);
                        }
                    }
                }
                assert forall|e: EndpointId| links@.contains_key(e) <==> ids@.contains(e) by {
                    if e == flow.consumer {
                        assert(ids@.contains(e)) by {
                            if !ids_mid.contains(e) {
                                assert(ids@[ids@.len() - 1] == e);
                            } else {
                                let j = choose|j: int| 0 <= j < ids_mid.len() && ids_mid[j] == e;
                                assert(ids@[j] == e);
                            }
                        }
                    } else {
                        if ids@.contains(e) {
                            let j = choose|j: int| 0 <= j < ids@.len() && ids@[j] == e;
                            if j < ids_mid.len() {
                                assert(ids_mid[j] == e);
                            }
                        }
                        if ids_mid.contains(e) {
                            let j = choose|j: int| 0 <= j < ids_mid.len() && ids_mid[j] == e;
                            assert(ids@[j] == e);
                        }
                    }
                }
                assert(fs =~= base + route.flows@.take(fj + 1));
            }
            fj = fj + 1;
        }
        proof {
            assert(route.flows@.take(route.flows@.len() as int) =~= route.flows@);
            assert(routes@.take(ri + 1).drop_last() =~= routes@.take(ri as int));
            assert(routes@.take(ri + 1).last() == routes@[ri as int]);
            assert(fs =~= all_flows(routes@.take(ri + 1)));
        }
        ri = ri + 1;
    }
    assert(routes@.take(routes@.len() as int) =~= routes@);
    let ghost fl = fs;
    // Turn every touched endpoint's links into its wiring.
    let mut wiring: HashMap<EndpointId, EndpointWiring> = HashMap::new();
    let mut k: usize = 0;
    while k < ids.len()
        invariant
            k <= ids@.len(),
            fl == all_flows(routes@),
            hs == handles@,
            links_ok(fl, hs, links@),
            forall|e: EndpointId| links@.contains_key(e) <==> ids@.contains(e),
            ids@.no_duplicates(),
            forall|e: EndpointId| #[trigger] wiring@.contains_key(e) <==> ids@.take(k as int).contains(e),
            forall|e: EndpointId|
                #[trigger] wiring@.contains_key(e) ==> links@.contains_key(e) && ingress_links(
                    wiring@[e].inbound@,
                ) == links@[e].0@ && egress_links(wiring@[e].outbound@) == links@[e].1@,
        decreases ids@.len() - k,
    {
        let e = ids[k];
        assert(ids@.contains(e));
        let pair = match links.get(&e) {
            Some(p) => p,
            None => {
                return Err(SwitchboardError::Unsolveable);
            },
        };
        let inbound = ingress_list(&pair.0);
        let outbound = egress_list(&pair.1);
        wiring.insert(e, EndpointWiring { inbound, outbound });
        proof {
            let prev = ids@.take(k as int);
            let now = ids@.take(k + 1);
            assert(now =~= prev.push(e));
            assert forall|x: EndpointId| #[trigger] wiring@.contains_key(x) <==> now.contains(x) by {
                if now.contains(x) && x != e {
                    let j = choose|j: int| 0 <= j < now.len() && #[trigger] now[j] == x;
                    assert(prev[j] == x);
                }
                if prev.contains(x) {
                    let j = choose|j: int| 0 <= j < prev.len() && #[trigger] prev[j] == x;
                    assert(now[j] == x);
                }
                if x == e {
                    assert(now[k as int] == x);
                }
            }
        }
        k = k + 1;
    }
    proof {
        assert(ids@.take(ids@.len() as int) =~= ids@);
        assert forall|e: EndpointId| #[trigger] wiring@.contains_key(e) <==> touched(fl, e) by {
            assert(wiring@.contains_key(e) == ids@.contains(e));
        }
    }
    Ok(wiring)
}

/// The wiring update an endpoint is sent: its entry of the planned wiring,
/// which is taken out of it, or no links at all when it has none.
pub fn wiring_update(
    wiring: &mut HashMap<EndpointId, EndpointWiring>,
    endpoint_id: EndpointId,
) -> (r: Message)
    ensures
        final(wiring)@ == old(wiring)@.remove(endpoint_id),
        r matches Message::WiringUpdate { endpoint_id: e, inbound, outbound } && e == endpoint_id
            && if old(wiring)@.contains_key(endpoint_id) {
            inbound@ == old(wiring)@[endpoint_id].inbound@ && outbound@ == old(
                wiring,
            )@[endpoint_id].outbound@
        } else {
            inbound@.len() == 0 && outbound@.len() == 0
        },
{
    match wiring.remove(&endpoint_id) {
        Some(w) => Message::WiringUpdate { endpoint_id, inbound: w.inbound, outbound: w.outbound },
        None => Message::WiringUpdate { endpoint_id, inbound: Vec::new(), outbound: Vec::new() },
    }
}

// ---------------------------------------------------------------------
// Admitting requests.
// ---------------------------------------------------------------------
/// Filtering by a predicate that every item meets keeps the list whole.
proof fn lemma_filter_keeps_all<A>(s: Seq<A>, f: spec_fn(A) -> bool)
    requires
        forall|i: int| 0 <= i < s.len() ==> f(#[trigger] s[i]),
    ensures
        s.filter(f) == s,
    decreases s.len(),
{
    reveal_with_fuel(Seq::filter, 1);
    if s.len() > 0 {
        lemma_filter_keeps_all(s.drop_last(), f);
        assert(f(s[s.len() - 1]));
        assert(s.drop_last().push(s.last()) =~= s);
    }
}

/// Register an endpoint and plan the wiring that includes it. When the
/// solver refuses, the registration is withdrawn again (with the intents
/// that name the identifier) and the refusal is returned beside the
/// identifier; the identifier counter is not wound back.
pub fn register_endpoint<S: Solver>(
    core: &mut SwitchboardCore<S>,
    directions: EndpointDirections,
) -> (r: (EndpointId, Result<Solution, SwitchboardError>))
    ensures
        r.0 == old(core).next_endpoint(),
        final(core).next_endpoint() == (if old(core).next_endpoint() == u32::MAX {
            u32::MAX
        } else {
            (old(core).next_endpoint() + 1) as u32
        }),
        final(core).spec_solver() == old(core).spec_solver(),
        old(core).spec_solver().solves(
            old(core).endpoint_map().insert(r.0, directions),
            old(core).intent_list(),
            r.1,
        ),
        r.1 is Ok ==> final(core).endpoint_map() == old(core).endpoint_map().insert(r.0, directions)
            && final(core).intent_list() == old(core).intent_list(),
        r.1 is Err ==> final(core).endpoint_map() == old(core).endpoint_map().insert(
            r.0,
            directions,
        ).remove(r.0) && final(core).intent_list() == old(core).intent_list().filter(
            avoids(r.0),
        ),
        r.1 is Err && !old(core).endpoint_map().contains_key(r.0) ==> final(core).endpoint_map()
            == old(core).endpoint_map() && final(core).intent_list() == old(core).intent_list(),
{
    let before = core.intents();
    proof {
        assert(intents_wf(old(core).endpoint_map(), before@));
    }
    let id = core.add_endpoint(directions);
    let solved = core.solve();
    match solved {
        Ok(solution) => (id, Ok(solution)),
        Err(e) => {
            core.remove_endpoint(id);
            proof {
                let m = old(core).endpoint_map();
                let s = old(core).intent_list();
                if !m.contains_key(id) {
                    assert(m.insert(id, directions).remove(id) =~= m);
                    assert forall|i: int| 0 <= i < s.len() implies avoids(id)(#[trigger] s[i]) by {
                        assert(m.contains_key(s[i].from) && m.contains_key(s[i].to));
                    }
                    lemma_filter_keeps_all(s, avoids(id));
                }
            }
            (id, Err(e))
        },
    }
}

/// Record an intent between two registered endpoints and plan the wiring
/// that includes it. An unknown endpoint is refused before anything
/// changes; when the solver refuses, the intent is withdrawn again and the
/// refusal is returned.
pub fn connect_endpoints<S: Solver>(
    core: &mut SwitchboardCore<S>,
    from: EndpointId,
    to: EndpointId,
) -> (r: Result<Solution, SwitchboardError>)
    ensures
        final(core).endpoint_map() == old(core).endpoint_map(),
        final(core).next_endpoint() == old(core).next_endpoint(),
        final(core).spec_solver() == old(core).spec_solver(),
        !(old(core).endpoint_map().contains_key(from) && old(core).endpoint_map().contains_key(to))
            ==> r == Err::<Solution, SwitchboardError>(SwitchboardError::InvalidEndpoint)
            && final(core).intent_list() == old(core).intent_list(),
        old(core).endpoint_map().contains_key(from) && old(core).endpoint_map().contains_key(to)
            ==> {
            let added = if old(core).intent_list().contains(Intent { from, to }) {
                old(core).intent_list()
            } else {
                old(core).intent_list().push(Intent { from, to })
            };
            &&& old(core).spec_solver().solves(old(core).endpoint_map(), added, r)
            &&& r is Ok ==> final(core).intent_list() == added
            &&& r is Err ==> final(core).intent_list() == added.filter(other_than(from, to))
        },
        r is Err && !old(core).intent_list().contains(Intent { from, to })
            ==> final(core).intent_list() == old(core).intent_list(),
{
    let before = core.intents();
    proof {
        assert(intents_wf(old(core).endpoint_map(), before@));
    }
    match core.add_intent(from, to) {
        Err(e) => {
            return Err(e);
        },
        Ok(()) => {},
    }
    let solved = core.solve();
    match solved {
        Ok(solution) => Ok(solution),
        Err(e) => {
            core.remove_intent(from, to);
            proof {
                let s = old(core).intent_list();
                let x = Intent { from, to };
                if !s.contains(x) {
                    assert(s.push(x).drop_last() =~= s);
                    reveal_with_fuel(Seq::filter, 1);
                    assert forall|i: int| 0 <= i < s.len() implies other_than(from, to)(
                        #[trigger] s[i],
                    ) by {
                        if !other_than(from, to)(s[i]) {
                            assert(s[i] == x);
                        }
                    }
                    lemma_filter_keeps_all(s, other_than(from, to));
                }
            }
            Err(e)
        },
    }
}

} // verus!
