//! Channel keys: a schema plus the sorted, duplicate-free producer and
//! consumer sets of a channel, and how well one key fits another.
use vstd::prelude::*;

use super::protocol::{EndpointId, SchemaId};

verus! {

broadcast use vstd::seq_lib::group_seq_properties;

/// Strictly increasing: sorted and free of duplicates.
pub open spec fn strictly_sorted(s: Seq<u32>) -> bool {
    forall|i: int, j: int| 0 <= i < j < s.len() ==> s[i] < s[j]
}

/// The view of a channel key: schema bytes, producers, consumers.
pub type KeyView = (Seq<u8>, Seq<u32>, Seq<u32>);

/// Canonical key describing a channel's schema and attachments: producers
/// and consumers are kept sorted and free of duplicates.
#[derive(Debug, PartialEq, Eq, Hash, PartialOrd, Ord)]
pub struct ChannelKey {
    schema: SchemaId,
    producers: Vec<EndpointId>,
    consumers: Vec<EndpointId>,
}

impl View for ChannelKey {
    type V = KeyView;

    open spec fn view(&self) -> KeyView {
        (self.spec_schema(), self.spec_producers(), self.spec_consumers())
    }
}

/// A key view is well formed when both endpoint lists are strictly sorted
/// and the schema is sixteen bytes.
pub open spec fn key_wf(k: KeyView) -> bool {
    k.0.len() == 16 && strictly_sorted(k.1) && strictly_sorted(k.2)
}

/// Copies a vector of endpoint ids.
pub fn copy_ids(v: &[EndpointId]) -> (r: Vec<EndpointId>)
    ensures
        r@ == v@,
{
    let mut out: Vec<EndpointId> = Vec::new();
    let mut k: usize = 0;
    while k < v.len()
        invariant
            k <= v@.len(),
            out@ == v@.subrange(0, k as int),
        decreases v@.len() - k,
    {
        out.push(v[k]);
        assert(out@ =~= v@.subrange(0, k + 1));
        k = k + 1;
    }
    assert(v@.subrange(0, v@.len() as int) =~= v@);
    out
}

/// The distinct elements of `items`, in increasing order.
pub fn sorted_set(items: &[EndpointId]) -> (r: Vec<EndpointId>)
    ensures
        strictly_sorted(r@),
        forall|x: EndpointId| r@.contains(x) <==> items@.contains(x),
{
    let mut out: Vec<EndpointId> = Vec::new();
    let mut i: usize = 0;
    while i < items.len()
        invariant
            i <= items@.len(),
            strictly_sorted(out@),
            forall|x: EndpointId| out@.contains(x) <==> items@.subrange(0, i as int).contains(x),
        decreases items@.len() - i,
    {
        let x = items[i];
        let mut k: usize = 0;
        while k < out.len() && out[k] < x
            invariant
                k <= out@.len(),
                forall|j: int| 0 <= j < k ==> out@[j] < x,
            decreases out@.len() - k,
        {
            k = k + 1;
        }
        let ghost before = out@;
        let ghost prefix = items@.subrange(0, i as int);
        assert(forall|y: EndpointId| before.contains(y) <==> prefix.contains(y));
        if k < out.len() && out[k] == x {
            assert forall|y: EndpointId| out@.contains(y) <==> (before.contains(y) || y == x) by {
                if y == x {
                    assert(out@[k as int] == x);
                }
            }
        } else {
            out.insert(k, x);
            proof {
                assert forall|a: int, b: int| 0 <= a < b < out@.len() implies out@[a] < out@[b] by {
                    if b < k {
                    } else if a < k && b == k {
                    } else if a < k {
                        assert(out@[b] == before[b - 1]);
                    } else if a == k {
                        assert(out@[b] == before[b - 1]);
                        if k < before.len() {
                            assert(before[k as int] > x);
                            if b - 1 > k {
                                assert(before[k as int] < before[b - 1]);
                            }
                        }
                    } else {
                        assert(out@[a] == before[a - 1]);
                        assert(out@[b] == before[b - 1]);
                    }
                }
                assert forall|y: EndpointId| out@.contains(y) <==> (before.contains(y) || y == x) by {
                    if out@.contains(y) {
                        let j = choose|j: int| 0 <= j < out@.len() && out@[j] == y;
                        if j < k {
                            assert(before[j] == y);
                        } else if j > k {
                            assert(before[j - 1] == y);
                        }
                    }
                    if before.contains(y) {
                        let j = choose|j: int| 0 <= j < before.len() && before[j] == y;
                        if j < k {
                            assert(out@[j] == y);
                        } else {
                            assert(out@[j + 1] == y);
                        }
                    }
                    if y == x {
                        assert(out@[k as int] == x);
                    }
                }
            }
        }
        proof {
            assert(items@.subrange(0, i + 1) =~= prefix.push(x));
            assert forall|y: EndpointId| out@.contains(y) <==> prefix.push(x).contains(y) by {
                if prefix.push(x).contains(y) && y != x {
                    let j = choose|j: int| 0 <= j < prefix.push(x).len() && prefix.push(x)[j] == y;
                    assert(prefix[j] == y);
                    assert(prefix.contains(y));
                }
                if prefix.contains(y) {
                    let j = choose|j: int| 0 <= j < prefix.len() && prefix[j] == y;
                    assert(prefix.push(x)[j] == y);
                }
                assert(prefix.push(x)[i as int] == x);
            }
        }
        i = i + 1;
    }
    assert(items@.subrange(0, items@.len() as int) =~= items@);
    out
}

/// Membership in a strictly sorted list.
pub fn sorted_contains(s: &[EndpointId], x: EndpointId) -> (r: bool)
    ensures
        r == s@.contains(x),
{
    let mut k: usize = 0;
    while k < s.len()
        invariant
            k <= s@.len(),
            forall|j: int| 0 <= j < k ==> s@[j] != x,
        decreases s@.len() - k,
    {
        if s[k] == x {
            return true;
        }
        k = k + 1;
    }
    false
}

/// Byte-wise equality of two schema identifiers.
pub fn schema_eq(a: &SchemaId, b: &SchemaId) -> (r: bool)
    ensures
        r == (a@ == b@),
{
    let mut k: usize = 0;
    while k < 16
        invariant
            k <= 16,
            a@.len() == 16,
            b@.len() == 16,
            forall|j: int| 0 <= j < k ==> a@[j] == b@[j],
        decreases 16 - k,
    {
        if a[k] != b[k] {
            return false;
        }
        k = k + 1;
    }
    assert(a@ =~= b@);
    true
}

/// Element-wise equality of two id lists.
pub fn ids_eq(a: &[EndpointId], b: &[EndpointId]) -> (r: bool)
    ensures
        r == (a@ == b@),
{
    if a.len() != b.len() {
        return false;
    }
    let mut k: usize = 0;
    while k < a.len()
        invariant
            k <= a@.len(),
            a@.len() == b@.len(),
            forall|j: int| 0 <= j < k ==> a@[j] == b@[j],
        decreases a@.len() - k,
    {
        if a[k] != b[k] {
            return false;
        }
        k = k + 1;
    }
    assert(a@ =~= b@);
    true
}

/// Whether every element of `a` is in `b`.
pub open spec fn subset_of(a: Seq<u32>, b: Seq<u32>) -> bool {
    forall|x: u32| a.contains(x) ==> b.contains(x)
}

/// The elements of `a` that are also in `b`.
pub open spec fn shared_with(a: Seq<u32>, b: Seq<u32>) -> Seq<u32> {
    a.filter(|x: u32| b.contains(x))
}

/// Whether the strictly sorted `a` is a subset of the strictly sorted `b`,
/// by a single merge pass.
pub fn is_subset(a: &[EndpointId], b: &[EndpointId]) -> (r: bool)
    requires
        strictly_sorted(a@),
        strictly_sorted(b@),
    ensures
        r == subset_of(a@, b@),
{
    let mut ia: usize = 0;
    let mut ib: usize = 0;
    while ia < a.len() && ib < b.len()
        invariant
            ia <= a@.len(),
            ib <= b@.len(),
            strictly_sorted(a@),
            strictly_sorted(b@),
            forall|k: int| 0 <= k < ia ==> b@.contains(a@[k]),
            ia < a@.len() ==> forall|j: int| 0 <= j < ib ==> b@[j] < a@[ia as int],
        decreases a@.len() - ia + b@.len() - ib,
    {
        if a[ia] < b[ib] {
            proof {
                let x = a@[ia as int];
                assert(!b@.contains(x)) by {
                    if b@.contains(x) {
                        let j = choose|j: int| 0 <= j < b@.len() && b@[j] == x;
                        if j < ib {
                        } else if j > ib {
                            assert(b@[ib as int] < b@[j]);
                        }
                    }
                }
                assert(a@.contains(x));
            }
            return false;
        } else if a[ia] > b[ib] {
            ib = ib + 1;
        } else {
            assert(b@.contains(a@[ia as int])) by {
                assert(b@[ib as int] == a@[ia as int]);
            }
            ia = ia + 1;
            ib = ib + 1;
            proof {
                if ia < a@.len() {
                    assert forall|j: int| 0 <= j < ib implies b@[j] < a@[ia as int] by {
                        assert(a@[ia - 1] < a@[ia as int]);
                        if j < ib - 1 {
                        }
                    }
                }
            }
        }
    }
    if ia == a.len() {
        assert forall|x: u32| a@.contains(x) implies b@.contains(x) by {
            let k = choose|k: int| 0 <= k < a@.len() && a@[k] == x;
        }
        true
    } else {
        proof {
            let x = a@[ia as int];
            assert(!b@.contains(x)) by {
                if b@.contains(x) {
                    let j = choose|j: int| 0 <= j < b@.len() && b@[j] == x;
                }
            }
            assert(a@.contains(x));
        }
        false
    }
}

/// The number of elements the strictly sorted lists `a` and `b` share, by
/// a single merge pass.
pub fn intersection_len(a: &[EndpointId], b: &[EndpointId]) -> (r: usize)
    requires
        strictly_sorted(a@),
        strictly_sorted(b@),
    ensures
        r == shared_with(a@, b@).len(),
{
    let mut count: usize = 0;
    let mut ia: usize = 0;
    let mut ib: usize = 0;
    while ia < a.len() && ib < b.len()
        invariant
            ia <= a@.len(),
            ib <= b@.len(),
            strictly_sorted(a@),
            strictly_sorted(b@),
            count == a@.subrange(0, ia as int).filter(|x: u32| b@.contains(x)).len(),
            count <= ia,
            ia < a@.len() ==> forall|j: int| 0 <= j < ib ==> b@[j] < a@[ia as int],
        decreases a@.len() - ia + b@.len() - ib,
    {
        let ghost x = a@[ia as int];
        proof {
            assert(a@.subrange(0, ia + 1).drop_last() =~= a@.subrange(0, ia as int));
            assert(a@.subrange(0, ia + 1).last() == x);
            reveal_with_fuel(Seq::filter, 1);
        }
        if a[ia] < b[ib] {
            proof {
                assert(!b@.contains(x)) by {
                    if b@.contains(x) {
                        let j = choose|j: int| 0 <= j < b@.len() && b@[j] == x;
                        if j > ib {
                            assert(b@[ib as int] < b@[j]);
                        }
                    }
                }
            }
            ia = ia + 1;
            proof {
                if ia < a@.len() {
                    assert(x < a@[ia as int]);
                }
            }
        } else if a[ia] > b[ib] {
            ib = ib + 1;
        } else {
            assert(b@.contains(x)) by {
                assert(b@[ib as int] == x);
            }
            count = count + 1;
            ia = ia + 1;
            ib = ib + 1;
            proof {
                if ia < a@.len() {
                    assert forall|j: int| 0 <= j < ib implies b@[j] < a@[ia as int] by {
                        assert(a@[ia - 1] < a@[ia as int]);
                    }
                }
            }
        }
    }
    proof {
        // The rest of `a` shares nothing with `b`.
        let rest_start = ia as int;
        assert forall|k: int| rest_start <= k < a@.len() implies !b@.contains(a@[k]) by {
            if b@.contains(a@[k]) {
                let j = choose|j: int| 0 <= j < b@.len() && b@[j] == a@[k];
                if ia < a@.len() {
                    assert(a@[rest_start] <= a@[k]);
                    if rest_start < k {
                        assert(a@[rest_start] < a@[k]);
                    }
                }
            }
        }
        lemma_filter_rest_empty(a@, rest_start, b@);
    }
    count
}

/// When no element of `a` from `start` on is in `b`, the shared elements
/// of `a` are those of its prefix.
proof fn lemma_filter_rest_empty(a: Seq<u32>, start: int, b: Seq<u32>)
    requires
        0 <= start <= a.len(),
        forall|k: int| start <= k < a.len() ==> !b.contains(a[k]),
    ensures
        a.subrange(0, start).filter(|x: u32| b.contains(x)).len() == shared_with(a, b).len(),
    decreases a.len() - start,
{
    if start < a.len() {
        lemma_filter_rest_empty_step(a, a.len() as int, start, b);
        assert(a.subrange(0, a.len() as int) =~= a);
    } else {
        assert(a.subrange(0, start) =~= a);
    }
}

proof fn lemma_filter_rest_empty_step(a: Seq<u32>, end: int, start: int, b: Seq<u32>)
    requires
        0 <= start <= end <= a.len(),
        forall|k: int| start <= k < a.len() ==> !b.contains(a[k]),
    ensures
        a.subrange(0, start).filter(|x: u32| b.contains(x)) == a.subrange(0, end).filter(
            |x: u32| b.contains(x),
        ),
    decreases end - start,
{
    if end > start {
        lemma_filter_rest_empty_step(a, end - 1, start, b);
        reveal_with_fuel(Seq::filter, 1);
        assert(a.subrange(0, end).drop_last() =~= a.subrange(0, end - 1));
        assert(a.subrange(0, end).last() == a[end - 1]);
    }
    if end == a.len() {
        assert(a.subrange(0, end) =~= a);
    }
}

impl ChannelKey {
    /// The schema of the key.
    pub closed spec fn spec_schema(&self) -> Seq<u8> {
        self.schema@
    }

    /// The producers of the key.
    pub closed spec fn spec_producers(&self) -> Seq<u32> {
        self.producers@
    }

    /// The consumers of the key.
    pub closed spec fn spec_consumers(&self) -> Seq<u32> {
        self.consumers@
    }

    #[verifier::type_invariant]
    closed spec fn inv(&self) -> bool {
        strictly_sorted(self.producers@) && strictly_sorted(self.consumers@)
    }

    /// Create a new channel key from producers and consumers: both lists
    /// are sorted and stripped of duplicates.
    pub fn new(schema: SchemaId, producers: &[EndpointId], consumers: &[EndpointId]) -> (r: Self)
        ensures
            r@.0 == schema@,
            strictly_sorted(r@.1),
            strictly_sorted(r@.2),
            forall|x: EndpointId| r@.1.contains(x) <==> producers@.contains(x),
            forall|x: EndpointId| r@.2.contains(x) <==> consumers@.contains(x),
    {
        let producers = sorted_set(producers);
        let consumers = sorted_set(consumers);
        ChannelKey { schema, producers, consumers }
    }

    /// A key from lists that are already strictly sorted.
    pub fn from_sorted(schema: SchemaId, producers: Vec<EndpointId>, consumers: Vec<EndpointId>) -> (r: Self)
        requires
            strictly_sorted(producers@),
            strictly_sorted(consumers@),
        ensures
            r@ == (schema@, producers@, consumers@),
    {
        ChannelKey { schema, producers, consumers }
    }

}

impl Clone for ChannelKey {
    /// A copy of the key.
    fn clone(&self) -> (r: Self)
        ensures
            r@ == self@,
    {
        proof {
            use_type_invariant(self);
        }
        ChannelKey {
            schema: self.schema,
            producers: copy_ids(&self.producers),
            consumers: copy_ids(&self.consumers),
        }
    }
}

impl ChannelKey {

    /// Check whether this key matches the supplied endpoints and schema.
    pub fn contains(&self, schema: SchemaId, producer: EndpointId, consumer: EndpointId) -> (r: bool)
        ensures
            r == (self@.0 == schema@ && self@.1.contains(producer) && self@.2.contains(consumer)),
    {
        schema_eq(&self.schema, &schema) && sorted_contains(&self.producers, producer)
            && sorted_contains(&self.consumers, consumer)
    }

    /// Check whether the key is compatible with another key: same schema,
    /// and on each side one endpoint set contains the other.
    pub fn is_compatible(&self, desired: &ChannelKey) -> (r: bool)
        ensures
            r == compatible(self@, desired@),
    {
        proof {
            use_type_invariant(self);
            use_type_invariant(desired);
        }
        if !schema_eq(&self.schema, &desired.schema) {
            return false;
        }
        (is_subset(&self.producers, desired.producers()) || is_subset(
            desired.producers(),
            &self.producers,
        )) && (is_subset(&self.consumers, desired.consumers()) || is_subset(
            desired.consumers(),
            &self.consumers,
        ))
    }

    /// Return the schema identifier for the key.
    pub fn schema(&self) -> (r: SchemaId)
        ensures
            r@ == self@.0,
    {
        self.schema
    }

    /// Return producers on this channel.
    pub fn producers(&self) -> (r: &[EndpointId])
        ensures
            r@ == self@.1,
            strictly_sorted(r@),
    {
        proof {
            use_type_invariant(self);
        }
        self.producers.as_slice()
    }

    /// Return consumers on this channel.
    pub fn consumers(&self) -> (r: &[EndpointId])
        ensures
            r@ == self@.2,
            strictly_sorted(r@),
    {
        proof {
            use_type_invariant(self);
        }
        self.consumers.as_slice()
    }

    /// Element-wise equality of two keys.
    pub fn same_as(&self, other: &ChannelKey) -> (r: bool)
        ensures
            r == (self@ == other@),
    {
        schema_eq(&self.schema, &other.schema) && ids_eq(&self.producers, &other.producers) && ids_eq(
            &self.consumers,
            &other.consumers,
        )
    }
}

/// Keys are compatible when their schemas agree and, for producers and for
/// consumers alike, one side's set contains the other's.
pub open spec fn compatible(current: KeyView, desired: KeyView) -> bool {
    &&& current.0 == desired.0
    &&& subset_of(current.1, desired.1) || subset_of(desired.1, current.1)
    &&& subset_of(current.2, desired.2) || subset_of(desired.2, current.2)
}

/// How many endpoints a current key shares with the desired one.
pub open spec fn key_score(current: KeyView, desired: KeyView) -> int {
    shared_with(current.1, desired.1).len() as int + shared_with(current.2, desired.2).len() as int
}

/// How many endpoints are missing from, or extra in, a current key
/// relative to the desired one.
pub open spec fn key_penalty(current: KeyView, desired: KeyView) -> int {
    let sp = shared_with(current.1, desired.1).len() as int;
    let sc = shared_with(current.2, desired.2).len() as int;
    (desired.1.len() - sp) + (current.1.len() - sp) + (desired.2.len() - sc) + (current.2.len() - sc)
}

/// Key `a` fits the desired key strictly better than key `b`: a higher
/// score, or the same score with a lower penalty.
pub open spec fn fits_better(a: KeyView, b: KeyView, desired: KeyView) -> bool {
    key_score(a, desired) > key_score(b, desired) || (key_score(a, desired) == key_score(
        b,
        desired,
    ) && key_penalty(a, desired) < key_penalty(b, desired))
}

/// The views of a list of keys.
pub open spec fn key_views(keys: Seq<ChannelKey>) -> Seq<KeyView> {
    keys.map_values(|k: ChannelKey| k@)
}

/// The index of the best compatible key: compatible, fitting no worse than
/// any compatible key, and strictly better than every compatible key before
/// it (so the first of several equally good keys).
pub open spec fn is_best_match(keys: Seq<KeyView>, desired: KeyView, i: int) -> bool {
    &&& 0 <= i < keys.len()
    &&& compatible(keys[i], desired)
    &&& forall|j: int|
        0 <= j < keys.len() && compatible(keys[j], desired) ==> !fits_better(keys[j], keys[i], desired)
    &&& forall|j: int|
        0 <= j < i && compatible(keys[j], desired) ==> fits_better(keys[i], keys[j], desired)
}

/// A shared count never exceeds the list it is drawn from.
proof fn lemma_shared_le(a: Seq<u32>, b: Seq<u32>)
    ensures
        shared_with(a, b).len() <= a.len(),
{
    a.lemma_filter_len(|x: u32| b.contains(x));
}

/// The score and penalty of a current key against the desired one.
fn compatibility_score(current: &ChannelKey, desired: &ChannelKey) -> (r: (u128, u128))
    ensures
        r.0 == key_score(current@, desired@),
        r.1 == key_penalty(current@, desired@),
{
    proof {
        use_type_invariant(current);
        use_type_invariant(desired);
        lemma_shared_le(current@.1, desired@.1);
        lemma_shared_le(current@.2, desired@.2);
    }
    let shared_producers = intersection_len(current.producers(), desired.producers());
    let shared_consumers = intersection_len(current.consumers(), desired.consumers());
    proof {
        // The shared elements of `current` and of `desired` are as many.
        lemma_shared_symmetric(current@.1, desired@.1);
        lemma_shared_symmetric(current@.2, desired@.2);
        lemma_shared_le(desired@.1, current@.1);
        lemma_shared_le(desired@.2, current@.2);
    }
    let sp = shared_producers as u128;
    let sc = shared_consumers as u128;
    let score = sp + sc;
    let missing_producers = desired.producers().len() as u128 - sp;
    let extra_producers = current.producers().len() as u128 - sp;
    let missing_consumers = desired.consumers().len() as u128 - sc;
    let extra_consumers = current.consumers().len() as u128 - sc;
    let penalty = missing_producers + extra_producers + missing_consumers + extra_consumers;
    (score, penalty)
}

/// Two duplicate-free lists share as many elements either way round.
proof fn lemma_shared_symmetric(a: Seq<u32>, b: Seq<u32>)
    requires
        strictly_sorted(a),
        strictly_sorted(b),
    ensures
        shared_with(a, b).len() == shared_with(b, a).len(),
{
    broadcast use vstd::seq_lib::group_filter_ensures;

    let sa = shared_with(a, b);
    let sb = shared_with(b, a);
    lemma_sorted_no_dups(a);
    lemma_sorted_no_dups(b);
    lemma_filter_contained(a, |x: u32| b.contains(x));
    lemma_filter_contained(b, |x: u32| a.contains(x));
    lemma_filter_no_dups(a, |x: u32| b.contains(x));
    lemma_filter_no_dups(b, |x: u32| a.contains(x));
    assert(sa.to_set() =~= sb.to_set()) by {
        assert forall|x: u32| sa.to_set().contains(x) <==> sb.to_set().contains(x) by {
            if sa.contains(x) {
                assert(a.contains(x) && b.contains(x));
                let j = choose|j: int| 0 <= j < b.len() && b[j] == x;
                assert(sb.contains(b[j]));
            }
            if sb.contains(x) {
                assert(b.contains(x) && a.contains(x));
                let j = choose|j: int| 0 <= j < a.len() && a[j] == x;
                assert(sa.contains(a[j]));
            }
        }
    }
    sa.unique_seq_to_set();
    sb.unique_seq_to_set();
}

proof fn lemma_sorted_no_dups(s: Seq<u32>)
    requires
        strictly_sorted(s),
    ensures
        s.no_duplicates(),
{
    assert forall|i: int, j: int| 0 <= i < s.len() && 0 <= j < s.len() && i != j implies s[i]
        != s[j] by {
        if i < j {
        } else {
        }
    }
}

/// What a filter keeps was in the list and meets the predicate.
proof fn lemma_filter_contained(s: Seq<u32>, f: spec_fn(u32) -> bool)
    ensures
        forall|x: u32| #[trigger] s.filter(f).contains(x) ==> s.contains(x) && f(x),
    decreases s.len(),
{
    reveal_with_fuel(Seq::filter, 1);
    if s.len() > 0 {
        lemma_filter_contained(s.drop_last(), f);
        let t = s.drop_last().filter(f);
        assert forall|x: u32| s.filter(f).contains(x) implies s.contains(x) && f(x) by {
            if t.contains(x) {
                assert(s.drop_last().contains(x));
                let j = choose|j: int| 0 <= j < s.drop_last().len() && s.drop_last()[j] == x;
                assert(s[j] == x);
            } else {
                let k = choose|k: int| 0 <= k < s.filter(f).len() && s.filter(f)[k] == x;
                if f(s.last()) {
                    assert(s.filter(f) == t.push(s.last()));
                    if k < t.len() {
                        assert(t[k] == x);
                    }
                    assert(s[s.len() - 1] == x);
                } else {
                    assert(s.filter(f) == t);
                }
            }
        }
    }
}

proof fn lemma_filter_no_dups(s: Seq<u32>, f: spec_fn(u32) -> bool)
    requires
        s.no_duplicates(),
    ensures
        s.filter(f).no_duplicates(),
    decreases s.len(),
{
    reveal_with_fuel(Seq::filter, 1);
    if s.len() > 0 {
        let d = s.drop_last();
        assert(d.no_duplicates()) by {
            assert forall|i: int, j: int|
                0 <= i < d.len() && 0 <= j < d.len() && i != j implies d[i] != d[j] by {
                assert(s[i] != s[j]);
            }
        }
        lemma_filter_no_dups(d, f);
        lemma_filter_contained(d, f);
        if f(s.last()) {
            let t = d.filter(f);
            assert(!t.contains(s.last())) by {
                if t.contains(s.last()) {
                    assert(d.contains(s.last()));
                    let m = choose|m: int| 0 <= m < d.len() && d[m] == s.last();
                    assert(s[m] == s[s.len() - 1]);
                }
            }
            let u = t.push(s.last());
            assert forall|i: int, j: int|
                0 <= i < u.len() && 0 <= j < u.len() && i != j implies u[i] != u[j] by {
                if i == t.len() {
                    assert(u[j] == t[j]);
                    assert(t.contains(t[j]));
                } else if j == t.len() {
                    assert(u[i] == t[i]);
                    assert(t.contains(t[i]));
                } else {
                    assert(u[i] == t[i] && u[j] == t[j]);
                }
            }
        }
    }
}

/// Return the position of the best compatible channel, if any: the
/// compatible key with the highest score, then the lowest penalty, then the
/// earliest position.
pub fn best_compatible_match(available: &[ChannelKey], desired: &ChannelKey) -> (r: Option<usize>)
    ensures
        match r {
            None => forall|j: int|
                0 <= j < available@.len() ==> !compatible(available@[j]@, desired@),
            Some(i) => is_best_match(key_views(available@), desired@, i as int),
        },
{
    let ghost keys = key_views(available@);
    let mut best: Option<(u128, u128, usize)> = None;
    let mut idx: usize = 0;
    while idx < available.len()
        invariant
            idx <= available@.len(),
            keys == key_views(available@),
            keys.len() == available@.len(),
            match best {
                None => forall|j: int| 0 <= j < idx ==> !compatible(keys[j], desired@),
                Some((s, p, i)) => {
                    &&& i < idx
                    &&& s == key_score(keys[i as int], desired@)
                    &&& p == key_penalty(keys[i as int], desired@)
                    &&& compatible(keys[i as int], desired@)
                    &&& forall|j: int|
                        0 <= j < idx && compatible(keys[j], desired@) ==> !fits_better(
                            keys[j],
                            keys[i as int],
                            desired@,
                        )
                    &&& forall|j: int|
                        0 <= j < i && compatible(keys[j], desired@) ==> fits_better(
                            keys[i as int],
                            keys[j],
                            desired@,
                        )
                },
            },
        decreases available@.len() - idx,
    {
        let key = &available[idx];
        assert(keys[idx as int] == key@);
        if key.is_compatible(desired) {
            let (score, penalty) = compatibility_score(key, desired);
            let better = match best {
                None => true,
                Some((s, p, _)) => score > s || (score == s && penalty < p),
            };
            if better {
                best = Some((score, penalty, idx));
            }
        }
        idx = idx + 1;
    }
    match best {
        None => {
            assert forall|j: int| 0 <= j < available@.len() implies !compatible(
                available@[j]@,
                desired@,
            ) by {
                assert(keys[j] == available@[j]@);
            }
            None
        },
        Some((_, _, i)) => Some(i),
    }
}


/// The outcome of comparing two sequences.
#[derive(Clone, Copy, Debug, PartialEq, Eq, Structural)]
pub enum Precedence {
    /// The first comes before the second.
    Before,
    /// The two are equal.
    Equal,
    /// The first comes after the second.
    After,
}

/// Lexicographic order on integer sequences: a proper prefix comes first.
pub open spec fn seq_before(a: Seq<int>, b: Seq<int>) -> bool
    decreases a.len(),
{
    if a.len() == 0 {
        b.len() > 0
    } else if b.len() == 0 {
        false
    } else {
        a[0] < b[0] || (a[0] == b[0] && seq_before(a.drop_first(), b.drop_first()))
    }
}

/// Bytes as integers.
pub open spec fn bytes_int(s: Seq<u8>) -> Seq<int> {
    s.map_values(|x: u8| x as int)
}

/// Endpoint ids as integers.
pub open spec fn ids_int(s: Seq<u32>) -> Seq<int> {
    s.map_values(|x: u32| x as int)
}

/// The order of channel keys: by schema bytes, then producers, then
/// consumers, each compared lexicographically.
pub open spec fn key_before(a: KeyView, b: KeyView) -> bool {
    ||| seq_before(bytes_int(a.0), bytes_int(b.0))
    ||| a.0 == b.0 && seq_before(ids_int(a.1), ids_int(b.1))
    ||| a.0 == b.0 && a.1 == b.1 && seq_before(ids_int(a.2), ids_int(b.2))
}

/// No sequence comes before itself.
pub proof fn lemma_seq_before_irreflexive(a: Seq<int>)
    ensures
        !seq_before(a, a),
    decreases a.len(),
{
    if a.len() > 0 {
        lemma_seq_before_irreflexive(a.drop_first());
    }
}

/// The sequence order is transitive.
pub proof fn lemma_seq_before_transitive(a: Seq<int>, b: Seq<int>, c: Seq<int>)
    requires
        seq_before(a, b),
        seq_before(b, c),
    ensures
        seq_before(a, c),
    decreases a.len(),
{
    if a.len() > 0 && b.len() > 0 && c.len() > 0 {
        if a[0] == b[0] && b[0] == c[0] {
            lemma_seq_before_transitive(a.drop_first(), b.drop_first(), c.drop_first());
        }
    }
}

/// Of two different sequences, one comes before the other.
pub proof fn lemma_seq_before_total(a: Seq<int>, b: Seq<int>)
    requires
        a != b,
    ensures
        seq_before(a, b) || seq_before(b, a),
    decreases a.len(),
{
    if a.len() > 0 && b.len() > 0 && a[0] == b[0] {
        if a.drop_first() == b.drop_first() {
            assert(a =~= seq![a[0]] + a.drop_first());
            assert(b =~= seq![b[0]] + b.drop_first());
        }
        lemma_seq_before_total(a.drop_first(), b.drop_first());
    } else if a.len() == 0 && b.len() == 0 {
        assert(a =~= b);
    }
}

/// At most one of two sequences comes before the other.
pub proof fn lemma_seq_before_asymmetric(a: Seq<int>, b: Seq<int>)
    requires
        seq_before(a, b),
    ensures
        !seq_before(b, a),
{
    if seq_before(b, a) {
        lemma_seq_before_transitive(a, b, a);
        lemma_seq_before_irreflexive(a);
    }
}

proof fn lemma_bytes_int_injective(a: Seq<u8>, b: Seq<u8>)
    requires
        bytes_int(a) == bytes_int(b),
    ensures
        a == b,
{
    assert(a.len() == bytes_int(a).len());
    assert(b.len() == bytes_int(b).len());
    assert forall|i: int| 0 <= i < a.len() implies a[i] == b[i] by {
        assert(bytes_int(a)[i] == a[i] as int);
        assert(bytes_int(b)[i] == b[i] as int);
    }
    assert(a =~= b);
}

proof fn lemma_ids_int_injective(a: Seq<u32>, b: Seq<u32>)
    requires
        ids_int(a) == ids_int(b),
    ensures
        a == b,
{
    assert(a.len() == ids_int(a).len());
    assert(b.len() == ids_int(b).len());
    assert forall|i: int| 0 <= i < a.len() implies a[i] == b[i] by {
        assert(ids_int(a)[i] == a[i] as int);
        assert(ids_int(b)[i] == b[i] as int);
    }
    assert(a =~= b);
}

/// No key comes before itself.
pub proof fn lemma_key_before_irreflexive(a: KeyView)
    ensures
        !key_before(a, a),
{
    lemma_seq_before_irreflexive(bytes_int(a.0));
    lemma_seq_before_irreflexive(ids_int(a.1));
    lemma_seq_before_irreflexive(ids_int(a.2));
}

/// The key order is transitive.
pub proof fn lemma_key_before_transitive(a: KeyView, b: KeyView, c: KeyView)
    requires
        key_before(a, b),
        key_before(b, c),
    ensures
        key_before(a, c),
{
    if seq_before(bytes_int(a.0), bytes_int(b.0)) && seq_before(bytes_int(b.0), bytes_int(c.0)) {
        lemma_seq_before_transitive(bytes_int(a.0), bytes_int(b.0), bytes_int(c.0));
    }
    lemma_seq_before_irreflexive(bytes_int(a.0));
    lemma_seq_before_irreflexive(ids_int(a.1));
    lemma_seq_before_irreflexive(bytes_int(b.0));
    lemma_seq_before_irreflexive(ids_int(b.1));
    if a.0 == b.0 && b.0 == c.0 {
        if seq_before(ids_int(a.1), ids_int(b.1)) && seq_before(ids_int(b.1), ids_int(c.1)) {
            lemma_seq_before_transitive(ids_int(a.1), ids_int(b.1), ids_int(c.1));
        }
        if a.1 == b.1 && b.1 == c.1 {
            lemma_seq_before_transitive(ids_int(a.2), ids_int(b.2), ids_int(c.2));
        }
    }
}

/// Of two different keys, one comes before the other.
pub proof fn lemma_key_before_total(a: KeyView, b: KeyView)
    requires
        a != b,
    ensures
        key_before(a, b) || key_before(b, a),
{
    if a.0 != b.0 {
        if bytes_int(a.0) == bytes_int(b.0) {
            lemma_bytes_int_injective(a.0, b.0);
        }
        lemma_seq_before_total(bytes_int(a.0), bytes_int(b.0));
    } else if a.1 != b.1 {
        if ids_int(a.1) == ids_int(b.1) {
            lemma_ids_int_injective(a.1, b.1);
        }
        lemma_seq_before_total(ids_int(a.1), ids_int(b.1));
    } else {
        if ids_int(a.2) == ids_int(b.2) {
            lemma_ids_int_injective(a.2, b.2);
        }
        assert(a.2 != b.2) by {
            if a.2 == b.2 {
                assert(a == b);
            }
        }
        lemma_seq_before_total(ids_int(a.2), ids_int(b.2));
    }
}

/// At most one of two keys comes before the other.
pub proof fn lemma_key_before_asymmetric(a: KeyView, b: KeyView)
    requires
        key_before(a, b),
    ensures
        !key_before(b, a),
{
    if key_before(b, a) {
        lemma_key_before_transitive(a, b, a);
        lemma_key_before_irreflexive(a);
    }
}

/// With equal prefixes of length `i`, the order is decided by what follows.
proof fn lemma_seq_before_skip(a: Seq<int>, b: Seq<int>, i: int)
    requires
        0 <= i <= a.len(),
        i <= b.len(),
        forall|j: int| 0 <= j < i ==> a[j] == b[j],
    ensures
        seq_before(a, b) == seq_before(a.skip(i), b.skip(i)),
    decreases i,
{
    if i > 0 {
        lemma_seq_before_skip(a.drop_first(), b.drop_first(), i - 1);
        assert(a.drop_first().skip(i - 1) =~= a.skip(i));
        assert(b.drop_first().skip(i - 1) =~= b.skip(i));
    } else {
        assert(a.skip(0) =~= a);
        assert(b.skip(0) =~= b);
    }
}

/// Lexicographic comparison of two id lists.
pub fn compare_ids(a: &[EndpointId], b: &[EndpointId]) -> (r: Precedence)
    ensures
        (r == Precedence::Before) == seq_before(ids_int(a@), ids_int(b@)),
        (r == Precedence::Equal) == (a@ == b@),
        (r == Precedence::After) == seq_before(ids_int(b@), ids_int(a@)),
{
    let ghost ia = ids_int(a@);
    let ghost ib = ids_int(b@);
    let mut i: usize = 0;
    while i < a.len() && i < b.len()
        invariant
            i <= a@.len(),
            i <= b@.len(),
            ia == ids_int(a@),
            ib == ids_int(b@),
            forall|j: int| 0 <= j < i ==> a@[j] == b@[j],
        decreases a@.len() - i,
    {
        if a[i] != b[i] {
            proof {
                lemma_seq_before_skip(ia, ib, i as int);
                lemma_seq_before_skip(ib, ia, i as int);
                assert(ia.skip(i as int)[0] == a@[i as int] as int);
                assert(ib.skip(i as int)[0] == b@[i as int] as int);
            }
            if a[i] < b[i] {
                return Precedence::Before;
            } else {
                return Precedence::After;
            }
        }
        i = i + 1;
    }
    proof {
        lemma_seq_before_skip(ia, ib, i as int);
        lemma_seq_before_skip(ib, ia, i as int);
        assert(ia.skip(i as int).len() == a@.len() - i);
        assert(ib.skip(i as int).len() == b@.len() - i);
    }
    if a.len() == b.len() {
        assert(a@ =~= b@);
        proof {
            lemma_seq_before_irreflexive(ia);
        }
        Precedence::Equal
    } else if a.len() < b.len() {
        Precedence::Before
    } else {
        Precedence::After
    }
}

/// Lexicographic comparison of two schema identifiers.
pub fn compare_schemas(a: &SchemaId, b: &SchemaId) -> (r: Precedence)
    ensures
        (r == Precedence::Before) == seq_before(bytes_int(a@), bytes_int(b@)),
        (r == Precedence::Equal) == (a@ == b@),
        (r == Precedence::After) == seq_before(bytes_int(b@), bytes_int(a@)),
{
    let ghost ia = bytes_int(a@);
    let ghost ib = bytes_int(b@);
    let mut i: usize = 0;
    while i < 16
        invariant
            i <= 16,
            a@.len() == 16,
            b@.len() == 16,
            ia == bytes_int(a@),
            ib == bytes_int(b@),
            forall|j: int| 0 <= j < i ==> a@[j] == b@[j],
        decreases 16 - i,
    {
        if a[i] != b[i] {
            proof {
                lemma_seq_before_skip(ia, ib, i as int);
                lemma_seq_before_skip(ib, ia, i as int);
                assert(ia.skip(i as int)[0] == a@[i as int] as int);
                assert(ib.skip(i as int)[0] == b@[i as int] as int);
            }
            if a[i] < b[i] {
                return Precedence::Before;
            } else {
                return Precedence::After;
            }
        }
        i = i + 1;
    }
    assert(a@ =~= b@);
    proof {
        lemma_seq_before_irreflexive(ia);
    }
    Precedence::Equal
}

impl ChannelKey {
    /// Compare two keys in the order the derived `Ord` gives them.
    pub fn precedence(&self, other: &ChannelKey) -> (r: Precedence)
        ensures
            (r == Precedence::Before) == key_before(self@, other@),
            (r == Precedence::Equal) == (self@ == other@),
            (r == Precedence::After) == key_before(other@, self@),
    {
        proof {
            if self@ != other@ {
                lemma_key_before_total(self@, other@);
            }
            lemma_key_before_irreflexive(self@);
            if key_before(self@, other@) {
                lemma_key_before_asymmetric(self@, other@);
            }
        }
        match compare_schemas(&self.schema, &other.schema) {
            Precedence::Equal => {},
            found => {
                return found;
            },
        }
        match compare_ids(&self.producers, &other.producers) {
            Precedence::Equal => {},
            found => {
                return found;
            },
        }
        compare_ids(&self.consumers, &other.consumers)
    }
}

/// Keys in strictly increasing order.
pub open spec fn keys_increasing(ks: Seq<KeyView>) -> bool {
    forall|i: int, j: int| 0 <= i < j < ks.len() ==> key_before(ks[i], ks[j])
}

/// Insert `key` into a list of keys kept in increasing order, unless an
/// equal key is already there.
pub fn insert_sorted(keys: &mut Vec<ChannelKey>, key: ChannelKey)
    requires
        keys_increasing(key_views(old(keys)@)),
    ensures
        keys_increasing(key_views(final(keys)@)),
        forall|k: KeyView|
            key_views(final(keys)@).contains(k) <==> (key_views(old(keys)@).contains(k) || k
                == key@),
{
    let ghost kv = key_views(keys@);
    let mut p: usize = 0;
    while p < keys.len() && keys[p].precedence(&key) == Precedence::Before
        invariant
            p <= keys@.len(),
            kv == key_views(keys@),
            kv.len() == keys@.len(),
            forall|j: int| 0 <= j < p ==> key_before(#[trigger] kv[j], key@),
        decreases keys@.len() - p,
    {
        assert(kv[p as int] == keys@[p as int]@);
        p = p + 1;
    }
    if p < keys.len() && keys[p].precedence(&key) == Precedence::Equal {
        assert(kv[p as int] == keys@[p as int]@);
        assert(kv.contains(key@));
        return;
    }
    proof {
        if p < kv.len() {
            assert(kv[p as int] == keys@[p as int]@);
            assert(key_before(key@, kv[p as int]));
        }
    }
    keys.insert(p, key);
    let ghost nv = key_views(keys@);
    proof {
        assert(nv =~= kv.insert(p as int, key@));
        assert forall|a: int, b: int| 0 <= a < b < nv.len() implies key_before(nv[a], nv[b]) by {
            if b < p {
            } else if a < p && b == p {
            } else if a < p {
                assert(nv[b] == kv[b - 1]);
                lemma_key_before_transitive(kv[a], key@, kv[p as int]);
                if b - 1 > p {
                    lemma_key_before_transitive(kv[a], kv[p as int], kv[b - 1]);
                }
            } else if a == p {
                assert(nv[b] == kv[b - 1]);
                if b - 1 > p {
                    lemma_key_before_transitive(key@, kv[p as int], kv[b - 1]);
                }
            } else {
                assert(nv[a] == kv[a - 1]);
                assert(nv[b] == kv[b - 1]);
            }
        }
        assert forall|k: KeyView| nv.contains(k) <==> (kv.contains(k) || k == key@) by {
            if nv.contains(k) {
                let j = choose|j: int| 0 <= j < nv.len() && nv[j] == k;
                if j < p {
                    assert(kv[j] == k);
                } else if j > p {
                    assert(kv[j - 1] == k);
                }
            }
            if kv.contains(k) {
                let j = choose|j: int| 0 <= j < kv.len() && kv[j] == k;
                if j < p {
                    assert(nv[j] == k);
                } else {
                    assert(nv[j + 1] == k);
                }
            }
            if k == key@ {
                assert(nv[p as int] == k);
            }
        }
    }
}

/// Two strictly sorted lists with the same elements are the same list.
pub proof fn lemma_sorted_unique(a: Seq<u32>, b: Seq<u32>)
    requires
        strictly_sorted(a),
        strictly_sorted(b),
        forall|x: u32| a.contains(x) <==> b.contains(x),
    ensures
        a == b,
    decreases a.len(),
{
    if a.len() == 0 {
        if b.len() > 0 {
            assert(b.contains(b[0]));
        }
        assert(a =~= b);
    } else {
        assert(a.contains(a[0]));
        assert(b.len() > 0);
        assert(b.contains(b[0]));
        let ia = choose|i: int| 0 <= i < a.len() && a[i] == b[0];
        let ib = choose|i: int| 0 <= i < b.len() && b[i] == a[0];
        if ia > 0 {
            assert(a[0] < a[ia]);
        }
        if ib > 0 {
            assert(b[0] < b[ib]);
        }
        assert(a[0] == b[0]);
        let ta = a.drop_first();
        let tb = b.drop_first();
        assert forall|x: u32| ta.contains(x) <==> tb.contains(x) by {
            if ta.contains(x) {
                let i = choose|i: int| 0 <= i < ta.len() && ta[i] == x;
                assert(a[i + 1] == x);
                assert(a[0] < a[i + 1]);
                assert(b.contains(x));
                let j = choose|j: int| 0 <= j < b.len() && b[j] == x;
                assert(j != 0);
                assert(tb[j - 1] == x);
            }
            if tb.contains(x) {
                let i = choose|i: int| 0 <= i < tb.len() && tb[i] == x;
                assert(b[i + 1] == x);
                assert(b[0] < b[i + 1]);
                assert(a.contains(x));
                let j = choose|j: int| 0 <= j < a.len() && a[j] == x;
                assert(j != 0);
                assert(ta[j - 1] == x);
            }
        }
        lemma_sorted_unique(ta, tb);
        assert(a =~= seq![a[0]] + ta);
        assert(b =~= seq![b[0]] + tb);
    }
}

/// Two lists of keys in increasing order with the same elements are the
/// same list.
pub proof fn lemma_increasing_unique(a: Seq<KeyView>, b: Seq<KeyView>)
    requires
        keys_increasing(a),
        keys_increasing(b),
        forall|k: KeyView| a.contains(k) <==> b.contains(k),
    ensures
        a == b,
    decreases a.len(),
{
    if a.len() == 0 {
        if b.len() > 0 {
            assert(b.contains(b[0]));
        }
        assert(a =~= b);
    } else {
        assert(a.contains(a[0]));
        assert(b.len() > 0);
        assert(b.contains(b[0]));
        let ia = choose|i: int| 0 <= i < a.len() && a[i] == b[0];
        let ib = choose|i: int| 0 <= i < b.len() && b[i] == a[0];
        if a[0] != b[0] {
            assert(ia > 0 && ib > 0);
            assert(key_before(a[0], a[ia]));
            assert(key_before(b[0], b[ib]));
            lemma_key_before_asymmetric(a[0], b[0]);
        }
        let ta = a.drop_first();
        let tb = b.drop_first();
        assert forall|k: KeyView| ta.contains(k) <==> tb.contains(k) by {
            if ta.contains(k) {
                let i = choose|i: int| 0 <= i < ta.len() && ta[i] == k;
                assert(a[i + 1] == k);
                assert(key_before(a[0], a[i + 1]));
                lemma_key_before_irreflexive(k);
                assert(b.contains(k));
                let j = choose|j: int| 0 <= j < b.len() && b[j] == k;
                assert(j != 0);
                assert(tb[j - 1] == k);
            }
            if tb.contains(k) {
                let i = choose|i: int| 0 <= i < tb.len() && tb[i] == k;
                assert(b[i + 1] == k);
                assert(key_before(b[0], b[i + 1]));
                lemma_key_before_irreflexive(k);
                assert(a.contains(k));
                let j = choose|j: int| 0 <= j < a.len() && a[j] == k;
                assert(j != 0);
                assert(ta[j - 1] == k);
            }
        }
        assert(keys_increasing(ta));
        assert(keys_increasing(tb));
        lemma_increasing_unique(ta, tb);
        assert(a =~= seq![a[0]] + ta);
        assert(b =~= seq![b[0]] + tb);
    }
}

/// Two well-formed keys with the same schema and the same producer and
/// consumer sets are the same key.
pub proof fn lemma_key_sets_determine(a: KeyView, b: KeyView)
    requires
        key_wf(a),
        key_wf(b),
        a.0 == b.0,
        a.1.to_set() == b.1.to_set(),
        a.2.to_set() == b.2.to_set(),
    ensures
        a == b,
{
    broadcast use vstd::set::group_set_axioms;

    assert forall|x: u32| a.1.contains(x) <==> b.1.contains(x) by {
        assert(a.1.to_set().contains(x) == a.1.contains(x));
        assert(b.1.to_set().contains(x) == b.1.contains(x));
    }
    assert forall|x: u32| a.2.contains(x) <==> b.2.contains(x) by {
        assert(a.2.to_set().contains(x) == a.2.contains(x));
        assert(b.2.to_set().contains(x) == b.2.contains(x));
    }
    lemma_sorted_unique(a.1, b.1);
    lemma_sorted_unique(a.2, b.2);
}

/// The best compatible key scores highest, and among the compatible keys
/// with its score it has the fewest missing and extra endpoints: for every
/// other compatible key, its score is no higher, and where the scores are
/// equal its penalty is no lower; every compatible key before it does
/// strictly worse on score, or on penalty at an equal score.
pub proof fn lemma_best_match_scores_highest_then_least_penalty(
    keys: Seq<KeyView>,
    desired: KeyView,
    i: int,
)
    requires
        is_best_match(keys, desired, i),
    ensures
        forall|j: int|
            0 <= j < keys.len() && compatible(keys[j], desired) ==> key_score(#[trigger] keys[j], desired)
                <= key_score(keys[i], desired),
        forall|j: int|
            0 <= j < keys.len() && compatible(keys[j], desired) && key_score(#[trigger] keys[j], desired)
                == key_score(keys[i], desired) ==> key_penalty(keys[i], desired) <= key_penalty(
                keys[j],
                desired,
            ),
        forall|j: int|
            0 <= j < i && compatible(keys[j], desired) && key_score(#[trigger] keys[j], desired)
                == key_score(keys[i], desired) ==> key_penalty(keys[i], desired) < key_penalty(
                keys[j],
                desired,
            ),
{
    assert forall|j: int|
        0 <= j < keys.len() && compatible(keys[j], desired) implies key_score(#[trigger] keys[j], desired)
        <= key_score(keys[i], desired) && (key_score(keys[j], desired) == key_score(keys[i], desired)
        ==> key_penalty(keys[i], desired) <= key_penalty(keys[j], desired)) by {
        assert(!fits_better(keys[j], keys[i], desired));
    }
    assert forall|j: int|
        0 <= j < i && compatible(keys[j], desired) && key_score(#[trigger] keys[j], desired)
            == key_score(keys[i], desired) implies key_penalty(keys[i], desired) < key_penalty(
        keys[j],
        desired,
    ) by {
        assert(fits_better(keys[i], keys[j], desired));
    }
}

} // verus!
