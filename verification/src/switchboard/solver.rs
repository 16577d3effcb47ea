//! The switchboard solver: from registered endpoints and intents to the
//! channels that must exist and the channel each intent's flow uses.
//!
//! Every intent becomes one flow from its producer to its consumer. The
//! consumers that share a schema and exactly the same set of producers
//! share one channel; the channels come out in key order, and every
//! endpoint's channel counts must respect its cardinality limits.
use std::collections::HashMap;
use vstd::prelude::*;

use super::keys::{
    ids_eq, insert_sorted, key_before, key_views, key_wf, keys_increasing, lemma_increasing_unique,
    lemma_key_sets_determine, lemma_sorted_unique,
    schema_eq, sorted_set, strictly_sorted, ChannelKey, KeyView,
};
use super::protocol::{card_allows, Cardinality, EndpointDirections, EndpointId, SchemaId};

verus! {

broadcast use vstd::std_specs::hash::group_hash_axioms;

/// Errors produced while planning switchboard wiring.
#[derive(Clone, Copy, Debug, PartialEq, Eq, Structural)]
pub enum SwitchboardError {
    /// An invalid endpoint identifier was referenced.
    InvalidEndpoint,
    /// The requested directions are incompatible.
    DirectionMismatch,
    /// The solver could not find a valid wiring.
    Unsolveable,
}

/// The description of each planning error.
pub open spec fn switchboard_error_text(e: SwitchboardError) -> Seq<char> {
    match e {
        SwitchboardError::InvalidEndpoint => "invalid endpoint"@,
        SwitchboardError::DirectionMismatch => "directions cannot be connected"@,
        SwitchboardError::Unsolveable => "graph cannot be solved"@,
    }
}

impl SwitchboardError {
    /// The human-readable description of the error.
    pub fn message(&self) -> (r: &'static str)
        ensures
            r@ == switchboard_error_text(*self),
    {
        match self {
            SwitchboardError::InvalidEndpoint => "invalid endpoint",
            SwitchboardError::DirectionMismatch => "directions cannot be connected",
            SwitchboardError::Unsolveable => "graph cannot be solved",
        }
    }
}

/// Pair of endpoints the solver should consider when planning flows.
#[derive(Clone, Copy, Debug, PartialEq, Eq, Structural)]
pub struct Intent {
    /// Producer endpoint identifier.
    pub from: EndpointId,
    /// Consumer endpoint identifier.
    pub to: EndpointId,
}

/// A channel that should exist once the solution is applied.
#[derive(Clone, Debug, PartialEq, Eq)]
pub struct ChannelSpec {
    key: ChannelKey,
}

impl View for ChannelSpec {
    type V = KeyView;

    open spec fn view(&self) -> KeyView {
        self.spec_key()@
    }
}

impl ChannelSpec {
    /// The key of the channel.
    pub closed spec fn spec_key(&self) -> ChannelKey {
        self.key
    }

    /// Create a new channel specification; producers and consumers are
    /// sorted and stripped of duplicates.
    pub fn new(schema: SchemaId, producers: &[EndpointId], consumers: &[EndpointId]) -> (r: Self)
        ensures
            key_wf(r@),
            r@.0 == schema@,
            forall|x: EndpointId| r@.1.contains(x) <==> producers@.contains(x),
            forall|x: EndpointId| r@.2.contains(x) <==> consumers@.contains(x),
    {
        ChannelSpec { key: ChannelKey::new(schema, producers, consumers) }
    }

    /// Access the channel key.
    pub fn key(&self) -> (r: &ChannelKey)
        ensures
            r@ == self@,
    {
        &self.key
    }
}

/// A flow for a single intent mapped to a channel in the solution.
#[derive(Clone, Copy, Debug, PartialEq, Eq, Structural)]
pub struct FlowRoute {
    /// Producer endpoint for the flow.
    pub producer: EndpointId,
    /// Consumer endpoint for the flow.
    pub consumer: EndpointId,
    /// Index into the solution channel list.
    pub channel: usize,
}

/// The set of flows required for a given intent.
#[derive(Clone, Debug, PartialEq, Eq)]
pub struct IntentRoute {
    /// Producer endpoint in the intent.
    pub from: EndpointId,
    /// Consumer endpoint in the intent.
    pub to: EndpointId,
    /// Flow list for the intent.
    pub flows: Vec<FlowRoute>,
}

/// The solver output, describing the channels and per-intent routing.
#[derive(Clone, Debug, PartialEq, Eq)]
pub struct Solution {
    /// Channels required for the solution.
    pub channels: Vec<ChannelSpec>,
    /// Routes for each intent.
    pub routes: Vec<IntentRoute>,
}

/// The keys of a solution's channels, in order.
pub open spec fn solution_keys(s: Solution) -> Seq<KeyView> {
    s.channels@.map_values(|c: ChannelSpec| c@)
}

/// A producer/consumer pair together with the schema it carries.
#[derive(Clone, Copy)]
struct FlowSpec {
    producer: EndpointId,
    consumer: EndpointId,
    schema: SchemaId,
}

// ---------------------------------------------------------------------
// The model.
// ---------------------------------------------------------------------
/// Why the intent `i` cannot become a flow, if it cannot: an endpoint that
/// is not registered, or an output and input that cannot be joined.
pub open spec fn flow_error(ep: Map<EndpointId, EndpointDirections>, i: Intent) -> Option<
    SwitchboardError,
> {
    if !ep.contains_key(i.from) || !ep.contains_key(i.to) {
        Some(SwitchboardError::InvalidEndpoint)
    } else if ep[i.from].output_dir().card() == Cardinality::Zero || ep[i.to].input_dir().card()
        == Cardinality::Zero {
        Some(SwitchboardError::DirectionMismatch)
    } else if ep[i.from].output_dir().schema() != ep[i.to].input_dir().schema() {
        Some(SwitchboardError::DirectionMismatch)
    } else {
        None
    }
}

/// The error of the first intent that cannot become a flow.
pub open spec fn first_flow_error(ep: Map<EndpointId, EndpointDirections>, s: Seq<Intent>) -> Option<
    SwitchboardError,
>
    decreases s.len(),
{
    if s.len() == 0 {
        None
    } else {
        match first_flow_error(ep, s.drop_last()) {
            Some(e) => Some(e),
            None => flow_error(ep, s.last()),
        }
    }
}

/// Some intent runs from `x` to `c`.
pub open spec fn feeds(intents: Seq<Intent>, x: EndpointId, c: EndpointId) -> bool {
    exists|i: int| 0 <= i < intents.len() && #[trigger] intents[i].from == x && intents[i].to == c
}

/// Some intent runs into `c`.
pub open spec fn is_consumer(intents: Seq<Intent>, c: EndpointId) -> bool {
    exists|i: int| 0 <= i < intents.len() && #[trigger] intents[i].to == c
}

/// The input schema of the endpoint `c`.
pub open spec fn in_schema(ep: Map<EndpointId, EndpointDirections>, c: EndpointId) -> Seq<u8> {
    ep[c].input_dir().schema()
}

/// The producers that feed the consumer `c`.
pub open spec fn producers_of(intents: Seq<Intent>, c: EndpointId) -> Set<EndpointId> {
    Set::new(|x: EndpointId| feeds(intents, x, c))
}

/// The consumers that share a channel with `c`: those with the same input
/// schema and exactly the same producers.
pub open spec fn consumers_like(
    ep: Map<EndpointId, EndpointDirections>,
    intents: Seq<Intent>,
    c: EndpointId,
) -> Set<EndpointId> {
    Set::new(
        |y: EndpointId|
            is_consumer(intents, y) && in_schema(ep, y) == in_schema(ep, c) && producers_of(
                intents,
                y,
            ) == producers_of(intents, c),
    )
}

/// `k` is the key of the channel that carries the consumer `c`.
pub open spec fn channel_of(
    ep: Map<EndpointId, EndpointDirections>,
    intents: Seq<Intent>,
    k: KeyView,
    c: EndpointId,
) -> bool {
    &&& key_wf(k)
    &&& k.0 == in_schema(ep, c)
    &&& k.1.to_set() == producers_of(intents, c)
    &&& k.2.to_set() == consumers_like(ep, intents, c)
}

/// `k` is the key of the channel of some consumer.
pub open spec fn serves_consumer(
    ep: Map<EndpointId, EndpointDirections>,
    intents: Seq<Intent>,
    k: KeyView,
) -> bool {
    exists|c: EndpointId| is_consumer(intents, c) && #[trigger] channel_of(ep, intents, k, c)
}

/// The channels a plan needs: one for each group of consumers that share a
/// schema and producers, and nothing else, in increasing key order.
pub open spec fn valid_channels(
    ep: Map<EndpointId, EndpointDirections>,
    intents: Seq<Intent>,
    chans: Seq<KeyView>,
) -> bool {
    &&& forall|i: int| 0 <= i < chans.len() ==> #[trigger] serves_consumer(ep, intents, chans[i])
    &&& forall|c: EndpointId|
        is_consumer(intents, c) ==> exists|i: int|
            0 <= i < chans.len() && #[trigger] channel_of(ep, intents, chans[i], c)
    &&& forall|i: int, j: int| 0 <= i < j < chans.len() ==> key_before(chans[i], chans[j])
}

/// The channel has `id` among its consumers.
pub open spec fn consumes(id: EndpointId) -> spec_fn(KeyView) -> bool {
    |k: KeyView| k.2.contains(id)
}

/// The channel has `id` among its producers.
pub open spec fn produces(id: EndpointId) -> spec_fn(KeyView) -> bool {
    |k: KeyView| k.1.contains(id)
}

/// How many of the channels the endpoint `id` consumes from.
pub open spec fn inbound(chans: Seq<KeyView>, id: EndpointId) -> nat {
    chans.filter(consumes(id)).len()
}

/// How many of the channels the endpoint `id` produces into.
pub open spec fn outbound(chans: Seq<KeyView>, id: EndpointId) -> nat {
    chans.filter(produces(id)).len()
}

/// Every registered endpoint's channel counts respect its cardinalities.
pub open spec fn cardinality_ok(ep: Map<EndpointId, EndpointDirections>, chans: Seq<KeyView>) -> bool {
    forall|id: EndpointId|
        #[trigger] ep.contains_key(id) ==> card_allows(ep[id].input_dir().card(), inbound(chans, id) as int)
            && card_allows(ep[id].output_dir().card(), outbound(chans, id) as int)
}

/// The channel `k` carries flows of `schema` from `p` to `c`.
pub open spec fn carries(k: KeyView, schema: Seq<u8>, p: EndpointId, c: EndpointId) -> bool {
    k.0 == schema && k.1.contains(p) && k.2.contains(c)
}

/// `idx` is the first channel that carries flows of `schema` from `p` to `c`.
pub open spec fn first_carrier(
    chans: Seq<KeyView>,
    schema: Seq<u8>,
    p: EndpointId,
    c: EndpointId,
    idx: int,
) -> bool {
    &&& 0 <= idx < chans.len()
    &&& carries(chans[idx], schema, p, c)
    &&& forall|j: int| 0 <= j < idx ==> !carries(#[trigger] chans[j], schema, p, c)
}

/// The route of one intent: its single flow, on the first channel that
/// carries it.
pub open spec fn route_ok(
    ep: Map<EndpointId, EndpointDirections>,
    chans: Seq<KeyView>,
    intent: Intent,
    r: IntentRoute,
) -> bool {
    &&& r.from == intent.from
    &&& r.to == intent.to
    &&& r.flows@.len() == 1
    &&& r.flows@[0].producer == intent.from
    &&& r.flows@[0].consumer == intent.to
    &&& first_carrier(
        chans,
        ep[intent.from].output_dir().schema(),
        intent.from,
        intent.to,
        r.flows@[0].channel as int,
    )
}

/// A route for every intent, in the intents' order.
pub open spec fn routes_ok(
    ep: Map<EndpointId, EndpointDirections>,
    intents: Seq<Intent>,
    chans: Seq<KeyView>,
    routes: Seq<IntentRoute>,
) -> bool {
    &&& routes.len() == intents.len()
    &&& forall|i: int| 0 <= i < routes.len() ==> #[trigger] route_ok(ep, chans, intents[i], routes[i])
}

/// What a plan must be: the valid channels, within every endpoint's
/// cardinalities, and a route for every intent.
pub open spec fn plan_ok(
    ep: Map<EndpointId, EndpointDirections>,
    intents: Seq<Intent>,
    s: Solution,
) -> bool {
    &&& first_flow_error(ep, intents) is None
    &&& valid_channels(ep, intents, solution_keys(s))
    &&& cardinality_ok(ep, solution_keys(s))
    &&& routes_ok(ep, intents, solution_keys(s), s.routes@)
}

/// What solving returns for the given endpoints and intents.
pub open spec fn solve_result(
    ep: Map<EndpointId, EndpointDirections>,
    intents: Seq<Intent>,
    r: Result<Solution, SwitchboardError>,
) -> bool {
    match r {
        Ok(s) => plan_ok(ep, intents, s),
        Err(e) => match first_flow_error(ep, intents) {
            Some(fe) => e == fe,
            None => e == SwitchboardError::Unsolveable && exists|chans: Seq<KeyView>|
                valid_channels(ep, intents, chans) && !cardinality_ok(ep, chans),
        },
    }
}

// ---------------------------------------------------------------------
// Flows.
// ---------------------------------------------------------------------
/// The flows are those of the intents, each with its producer's schema.
spec fn flows_match(
    ep: Map<EndpointId, EndpointDirections>,
    intents: Seq<Intent>,
    flows: Seq<FlowSpec>,
) -> bool {
    &&& flows.len() == intents.len()
    &&& forall|j: int|
        0 <= j < flows.len() ==> {
            &&& #[trigger] flows[j].producer == intents[j].from
            &&& flows[j].consumer == intents[j].to
            &&& flows[j].schema@ == in_schema(ep, intents[j].to)
            &&& ep.contains_key(intents[j].from)
            &&& ep.contains_key(intents[j].to)
            &&& flow_error(ep, intents[j]) is None
        }
}

/// Once a prefix of the intents fails, the whole list fails the same way.
proof fn lemma_first_error_extends(
    ep: Map<EndpointId, EndpointDirections>,
    s: Seq<Intent>,
    n: int,
    m: int,
)
    requires
        0 <= n <= m <= s.len(),
        first_flow_error(ep, s.subrange(0, n)) is Some,
    ensures
        first_flow_error(ep, s.subrange(0, m)) == first_flow_error(ep, s.subrange(0, n)),
    decreases m - n,
{
    if m > n {
        lemma_first_error_extends(ep, s, n, m - 1);
        assert(s.subrange(0, m).drop_last() =~= s.subrange(0, m - 1));
    }
}

impl DefaultSolver {
    fn make_flow(
        &self,
        producer_id: EndpointId,
        producer: &EndpointDirections,
        consumer_id: EndpointId,
        consumer: &EndpointDirections,
    ) -> (r: Result<FlowSpec, SwitchboardError>)
        ensures
            match r {
                Ok(f) => {
                    &&& f.producer == producer_id
                    &&& f.consumer == consumer_id
                    &&& f.schema@ == consumer.input_dir().schema()
                    &&& producer.output_dir().card() != Cardinality::Zero
                    &&& consumer.input_dir().card() != Cardinality::Zero
                    &&& producer.output_dir().schema() == consumer.input_dir().schema()
                },
                Err(e) => {
                    &&& e == SwitchboardError::DirectionMismatch
                    &&& (producer.output_dir().card() == Cardinality::Zero
                        || consumer.input_dir().card() == Cardinality::Zero
                        || producer.output_dir().schema() != consumer.input_dir().schema())
                },
            },
    {
        let output = producer.output();
        let input = consumer.input();
        if output.cardinality() == Cardinality::Zero || input.cardinality() == Cardinality::Zero {
            return Err(SwitchboardError::DirectionMismatch);
        }
        let out_schema = output.schema_id();
        let in_schema = input.schema_id();
        if !schema_eq(&out_schema, &in_schema) {
            return Err(SwitchboardError::DirectionMismatch);
        }
        Ok(FlowSpec { producer: producer_id, consumer: consumer_id, schema: in_schema })
    }

    /// One flow per intent, or the error of the first intent that cannot
    /// become one.
    fn plan_flows(&self, endpoints: &HashMap<EndpointId, EndpointDirections>, intents: &[Intent]) -> (r:
        Result<Vec<FlowSpec>, SwitchboardError>)
        ensures
            match r {
                Ok(flows) => first_flow_error(endpoints@, intents@) is None && flows_match(
                    endpoints@,
                    intents@,
                    flows@,
                ),
                Err(e) => first_flow_error(endpoints@, intents@) == Some(e),
            },
    {
        let ghost ep = endpoints@;
        let mut flows: Vec<FlowSpec> = Vec::new();
        let mut idx: usize = 0;
        while idx < intents.len()
            invariant
                idx <= intents@.len(),
                ep == endpoints@,
                first_flow_error(ep, intents@.subrange(0, idx as int)) is None,
                flows@.len() == idx,
                forall|j: int|
                    0 <= j < idx ==> {
                        &&& #[trigger] flows@[j].producer == intents@[j].from
                        &&& flows@[j].consumer == intents@[j].to
                        &&& flows@[j].schema@ == in_schema(ep, intents@[j].to)
                        &&& ep.contains_key(intents@[j].from)
                        &&& ep.contains_key(intents@[j].to)
                        &&& flow_error(ep, intents@[j]) is None
                    },
            decreases intents@.len() - idx,
        {
            let intent = intents[idx];
            proof {
                assert(intents@.subrange(0, idx + 1).drop_last() =~= intents@.subrange(
                    0,
                    idx as int,
                ));
                assert(intents@.subrange(0, idx + 1).last() == intent);
            }
            let from_directions = match endpoints.get(&intent.from) {
                Some(d) => d,
                None => {
                    proof {
                        lemma_first_error_extends(ep, intents@, idx + 1, intents@.len() as int);
                        assert(intents@.subrange(0, intents@.len() as int) =~= intents@);
                    }
                    return Err(SwitchboardError::InvalidEndpoint);
                },
            };
            let to_directions = match endpoints.get(&intent.to) {
                Some(d) => d,
                None => {
                    proof {
                        lemma_first_error_extends(ep, intents@, idx + 1, intents@.len() as int);
                        assert(intents@.subrange(0, intents@.len() as int) =~= intents@);
                    }
                    return Err(SwitchboardError::InvalidEndpoint);
                },
            };
            let flow = match self.make_flow(intent.from, from_directions, intent.to, to_directions) {
                Ok(f) => f,
                Err(e) => {
                    proof {
                        lemma_first_error_extends(ep, intents@, idx + 1, intents@.len() as int);
                        assert(intents@.subrange(0, intents@.len() as int) =~= intents@);
                    }
                    return Err(e);
                },
            };
            let ghost before = flows@;
            flows.push(flow);
            proof {
                assert(ep.contains_key(intent.from) && ep.contains_key(intent.to));
                assert(flow_error(ep, intent) is None);
                assert forall|j: int| 0 <= j < idx + 1 implies {
                    &&& #[trigger] flows@[j].producer == intents@[j].from
                    &&& flows@[j].consumer == intents@[j].to
                    &&& flows@[j].schema@ == in_schema(ep, intents@[j].to)
                    &&& ep.contains_key(intents@[j].from)
                    &&& ep.contains_key(intents@[j].to)
                    &&& flow_error(ep, intents@[j]) is None
                } by {
                    if j < idx {
                        assert(flows@[j] == before[j]);
                    }
                }
            }
            idx = idx + 1;
        }
        assert(intents@.subrange(0, intents@.len() as int) =~= intents@);
        assert(first_flow_error(endpoints@, intents@) is None);
        assert(flows_match(endpoints@, intents@, flows@));
        Ok(flows)
    }
}

/// Some key among `views` is that of the channel of `c`.
spec fn has_channel(
    ep: Map<EndpointId, EndpointDirections>,
    intents: Seq<Intent>,
    views: Seq<KeyView>,
    c: EndpointId,
) -> bool {
    exists|k: KeyView| views.contains(k) && #[trigger] channel_of(ep, intents, k, c)
}

/// The producers of every intent into `c`, in intent order.
fn producers_for(intents: &[Intent], c: EndpointId) -> (r: Vec<EndpointId>)
    ensures
        forall|x: EndpointId| r@.contains(x) <==> feeds(intents@, x, c),
{
    let mut out: Vec<EndpointId> = Vec::new();
    let mut j: usize = 0;
    while j < intents.len()
        invariant
            j <= intents@.len(),
            forall|x: EndpointId|
                out@.contains(x) <==> exists|i: int|
                    0 <= i < j && #[trigger] intents@[i].from == x && intents@[i].to == c,
        decreases intents@.len() - j,
    {
        let ghost before = out@;
        if intents[j].to == c {
            out.push(intents[j].from);
        }
        proof {
            assert forall|x: EndpointId|
                out@.contains(x) <==> exists|i: int|
                    0 <= i < j + 1 && #[trigger] intents@[i].from == x && intents@[i].to == c by {
                if out@.contains(x) {
                    if before.contains(x) {
                        let i = choose|i: int|
                            0 <= i < j && #[trigger] intents@[i].from == x && intents@[i].to == c;
                        assert(0 <= i < j + 1 && intents@[i].from == x && intents@[i].to == c);
                    } else {
                        let k = choose|k: int| 0 <= k < out@.len() && out@[k] == x;
                        assert(k == before.len()) by {
                            if k < before.len() {
                                assert(before[k] == x);
                            }
                        }
                        assert(intents@[j as int].from == x && intents@[j as int].to == c);
                    }
                }
                if exists|i: int| 0 <= i < j + 1 && #[trigger] intents@[i].from == x && intents@[i].to == c {
                    let i = choose|i: int|
                        0 <= i < j + 1 && #[trigger] intents@[i].from == x && intents@[i].to == c;
                    if i < j {
                        assert(before.contains(x));
                        let k = choose|k: int| 0 <= k < before.len() && before[k] == x;
                        assert(out@[k] == x);
                    } else {
                        assert(out@[before.len() as int] == x);
                    }
                }
            }
        }
        j = j + 1;
    }
    out
}

/// The producers of `c`, sorted and without duplicates.
fn sorted_producers(intents: &[Intent], c: EndpointId) -> (r: Vec<EndpointId>)
    ensures
        strictly_sorted(r@),
        r@.to_set() == producers_of(intents@, c),
{
    let items = producers_for(intents, c);
    let r = sorted_set(&items);
    assert(r@.to_set() =~= producers_of(intents@, c));
    r
}

/// The keys of every consumer's channel, each once, in increasing order.
fn plan_channels(
    endpoints: &HashMap<EndpointId, EndpointDirections>,
    intents: &[Intent],
    flows: &Vec<FlowSpec>,
) -> (r: Vec<ChannelKey>)
    requires
        flows_match(endpoints@, intents@, flows@),
    ensures
        valid_channels(endpoints@, intents@, key_views(r@)),
{
    let ghost ep = endpoints@;
    let n = intents.len();
    let mut keys: Vec<ChannelKey> = Vec::new();
    let mut idx: usize = 0;
    while idx < n
        invariant
            n == intents@.len(),
            idx <= n,
            ep == endpoints@,
            flows_match(ep, intents@, flows@),
            keys_increasing(key_views(keys@)),
            forall|k: KeyView| #[trigger]
                key_views(keys@).contains(k) ==> serves_consumer(ep, intents@, k),
            forall|j: int|
                0 <= j < idx ==> #[trigger] has_channel(
                    ep,
                    intents@,
                    key_views(keys@),
                    intents@[j].to,
                ),
        decreases n - idx,
    {
        let c = intents[idx].to;
        let schema = flows[idx].schema;
        assert(flows@[idx as int].producer == intents@[idx as int].from);
        let pk = sorted_producers(intents, c);
        let mut members: Vec<EndpointId> = Vec::new();
        let mut j: usize = 0;
        while j < n
            invariant
                n == intents@.len(),
                j <= n,
                idx < n,
                c == intents@[idx as int].to,
                ep == endpoints@,
                flows_match(ep, intents@, flows@),
                schema@ == in_schema(ep, c),
                strictly_sorted(pk@),
                pk@.to_set() == producers_of(intents@, c),
                forall|y: EndpointId|
                    members@.contains(y) <==> exists|i: int|
                        0 <= i < j && #[trigger] intents@[i].to == y && consumers_like(
                            ep,
                            intents@,
                            c,
                        ).contains(y),
            decreases n - j,
        {
            let y = intents[j].to;
            let ghost before = members@;
            assert(flows@[j as int].producer == intents@[j as int].from);
            let mut joins = false;
            if schema_eq(&flows[j].schema, &schema) {
                let py = sorted_producers(intents, y);
                if ids_eq(&py, &pk) {
                    joins = true;
                } else {
                    proof {
                        if producers_of(intents@, y) == producers_of(intents@, c) {
                            assert forall|x: EndpointId| py@.contains(x) <==> pk@.contains(x) by {
                                assert(py@.to_set().contains(x) == pk@.to_set().contains(x));
                            }
                            lemma_sorted_unique(py@, pk@);
                        }
                    }
                }
            }
            proof {
                assert(is_consumer(intents@, y));
                assert(joins == consumers_like(ep, intents@, c).contains(y));
            }
            if joins {
                members.push(y);
            }
            proof {
                assert forall|z: EndpointId|
                    members@.contains(z) <==> exists|i: int|
                        0 <= i < j + 1 && #[trigger] intents@[i].to == z && consumers_like(
                            ep,
                            intents@,
                            c,
                        ).contains(z) by {
                    if members@.contains(z) {
                        if before.contains(z) {
                            let i = choose|i: int|
                                0 <= i < j && #[trigger] intents@[i].to == z && consumers_like(
                                    ep,
                                    intents@,
                                    c,
                                ).contains(z);
                            assert(0 <= i < j + 1);
                        } else {
                            let k = choose|k: int| 0 <= k < members@.len() && members@[k] == z;
                            assert(k == before.len()) by {
                                if k < before.len() {
                                    assert(before[k] == z);
                                }
                            }
                            assert(intents@[j as int].to == z);
                        }
                    }
                    if exists|i: int|
                        0 <= i < j + 1 && #[trigger] intents@[i].to == z && consumers_like(
                            ep,
                            intents@,
                            c,
                        ).contains(z) {
                        let i = choose|i: int|
                            0 <= i < j + 1 && #[trigger] intents@[i].to == z && consumers_like(
                                ep,
                                intents@,
                                c,
                            ).contains(z);
                        if i < j {
                            assert(before.contains(z));
                            let k = choose|k: int| 0 <= k < before.len() && before[k] == z;
                            assert(members@[k] == z);
                        } else {
                            assert(members@[before.len() as int] == z);
                        }
                    }
                }
            }
            j = j + 1;
        }
        let key = ChannelKey::new(schema, &pk, &members);
        proof {
            assert(key@.1.to_set() =~= producers_of(intents@, c)) by {
                assert forall|x: EndpointId| key@.1.contains(x) <==> pk@.contains(x) by {}
                assert forall|x: EndpointId| key@.1.to_set().contains(x) <==> pk@.to_set().contains(x) by {}
            }
            assert(key@.2.to_set() =~= consumers_like(ep, intents@, c)) by {
                assert forall|y: EndpointId| key@.2.to_set().contains(y) <==> consumers_like(
                    ep,
                    intents@,
                    c,
                ).contains(y) by {
                    assert(key@.2.to_set().contains(y) == key@.2.contains(y));
                    assert(key@.2.contains(y) == members@.contains(y));
                    if consumers_like(ep, intents@, c).contains(y) {
                        assert(is_consumer(intents@, y));
                        let i = choose|i: int| 0 <= i < intents@.len() && #[trigger] intents@[i].to == y;
                        assert(0 <= i < n && intents@[i].to == y && consumers_like(
                            ep,
                            intents@,
                            c,
                        ).contains(y));
                        assert(members@.contains(y));
                    }
                    if members@.contains(y) {
                        let i = choose|i: int|
                            0 <= i < n && #[trigger] intents@[i].to == y && consumers_like(
                                ep,
                                intents@,
                                c,
                            ).contains(y);
                    }
                }
            }
            assert(schema@.len() == 16);
            assert(channel_of(ep, intents@, key@, c));
            assert(is_consumer(intents@, c)) by {
                assert(intents@[idx as int].to == c);
            }
            assert(serves_consumer(ep, intents@, key@));
        }
        let ghost old_views = key_views(keys@);
        let ghost kk = key@;
        insert_sorted(&mut keys, key);
        proof {
            assert forall|j: int| 0 <= j < idx + 1 implies #[trigger] has_channel(
                ep,
                intents@,
                key_views(keys@),
                intents@[j].to,
            ) by {
                if j < idx {
                    assert(has_channel(ep, intents@, old_views, intents@[j].to));
                    let k = choose|k: KeyView|
                        old_views.contains(k) && #[trigger] channel_of(ep, intents@, k, intents@[j].to);
                    assert(key_views(keys@).contains(k));
                } else {
                    assert(key_views(keys@).contains(kk));
                    assert(channel_of(ep, intents@, kk, intents@[j].to));
                }
            }
        }
        idx = idx + 1;
    }
    proof {
        let kv = key_views(keys@);
        assert forall|i: int| 0 <= i < kv.len() implies #[trigger] serves_consumer(
            ep,
            intents@,
            kv[i],
        ) by {
            assert(kv.contains(kv[i]));
        }
        assert forall|c: EndpointId| is_consumer(intents@, c) implies exists|i: int|
            0 <= i < kv.len() && #[trigger] channel_of(ep, intents@, kv[i], c) by {
            let j = choose|j: int| 0 <= j < intents@.len() && #[trigger] intents@[j].to == c;
            assert(has_channel(ep, intents@, kv, intents@[j].to));
            let k = choose|k: KeyView| kv.contains(k) && #[trigger] channel_of(ep, intents@, k, intents@[j].to);
            let i = choose|i: int| 0 <= i < kv.len() && kv[i] == k;
            assert(channel_of(ep, intents@, kv[i], c));
        }
    }
    keys
}

/// A filter that keeps something had something to keep.
proof fn lemma_filter_witness<A>(s: Seq<A>, f: spec_fn(A) -> bool)
    requires
        s.filter(f).len() > 0,
    ensures
        exists|i: int| 0 <= i < s.len() && f(#[trigger] s[i]),
    decreases s.len(),
{
    reveal_with_fuel(Seq::filter, 1);
    if s.len() > 0 {
        if f(s.last()) {
            assert(f(s[s.len() - 1]));
        } else {
            lemma_filter_witness(s.drop_last(), f);
            let i = choose|i: int| 0 <= i < s.drop_last().len() && f(#[trigger] s.drop_last()[i]);
            assert(s[i] == s.drop_last()[i]);
        }
    }
}

/// How many of `keys` satisfy `f`, counted by `member` on each key.
fn count_inbound(keys: &Vec<ChannelKey>, id: EndpointId) -> (r: usize)
    ensures
        r == inbound(key_views(keys@), id),
{
    let ghost kv = key_views(keys@);
    let mut count: usize = 0;
    let mut i: usize = 0;
    while i < keys.len()
        invariant
            i <= keys@.len(),
            kv == key_views(keys@),
            kv.len() == keys@.len(),
            count <= i,
            count == kv.subrange(0, i as int).filter(consumes(id)).len(),
        decreases keys@.len() - i,
    {
        proof {
            assert(kv.subrange(0, i + 1) =~= kv.subrange(0, i as int).push(kv[i as int]));
            kv.subrange(0, i as int).lemma_filter_len_push(consumes(id), kv[i as int]);
            assert(kv[i as int] == keys@[i as int]@);
        }
        if super::keys::sorted_contains(keys[i].consumers(), id) {
            count = count + 1;
        }
        i = i + 1;
    }
    assert(kv.subrange(0, kv.len() as int) =~= kv);
    count
}

/// How many of `keys` have `id` among their producers.
fn count_outbound(keys: &Vec<ChannelKey>, id: EndpointId) -> (r: usize)
    ensures
        r == outbound(key_views(keys@), id),
{
    let ghost kv = key_views(keys@);
    let mut count: usize = 0;
    let mut i: usize = 0;
    while i < keys.len()
        invariant
            i <= keys@.len(),
            kv == key_views(keys@),
            kv.len() == keys@.len(),
            count <= i,
            count == kv.subrange(0, i as int).filter(produces(id)).len(),
        decreases keys@.len() - i,
    {
        proof {
            assert(kv.subrange(0, i + 1) =~= kv.subrange(0, i as int).push(kv[i as int]));
            kv.subrange(0, i as int).lemma_filter_len_push(produces(id), kv[i as int]);
            assert(kv[i as int] == keys@[i as int]@);
        }
        if super::keys::sorted_contains(keys[i].producers(), id) {
            count = count + 1;
        }
        i = i + 1;
    }
    assert(kv.subrange(0, kv.len() as int) =~= kv);
    count
}

/// Whether every endpoint's channel counts respect its cardinalities.
/// Only endpoints of some intent can be attached to a channel; every other
/// endpoint has no channel, which every cardinality allows.
fn cardinality_allows(
    endpoints: &HashMap<EndpointId, EndpointDirections>,
    intents: &[Intent],
    flows: &Vec<FlowSpec>,
    keys: &Vec<ChannelKey>,
) -> (r: bool)
    requires
        flows_match(endpoints@, intents@, flows@),
        valid_channels(endpoints@, intents@, key_views(keys@)),
    ensures
        r == cardinality_ok(endpoints@, key_views(keys@)),
{
    let ghost ep = endpoints@;
    let ghost kv = key_views(keys@);
    let n = intents.len();
    let mut j: usize = 0;
    while j < n
        invariant
            n == intents@.len(),
            j <= n,
            ep == endpoints@,
            kv == key_views(keys@),
            flows_match(ep, intents@, flows@),
            forall|i: int|
                0 <= i < j ==> card_allows(
                    ep[#[trigger] intents@[i].to].input_dir().card(),
                    inbound(kv, intents@[i].to) as int,
                ) && card_allows(
                    ep[intents@[i].from].output_dir().card(),
                    outbound(kv, intents@[i].from) as int,
                ),
        decreases n - j,
    {
        let intent = intents[j];
        assert(flows@[j as int].producer == intents@[j as int].from);
        let to_dirs = match endpoints.get(&intent.to) {
            Some(d) => d,
            None => {
                return false;
            },
        };
        let from_dirs = match endpoints.get(&intent.from) {
            Some(d) => d,
            None => {
                return false;
            },
        };
        let inb = count_inbound(keys, intent.to);
        if !to_dirs.input().cardinality().allows(inb) {
            assert(ep.contains_key(intent.to));
            return false;
        }
        let outb = count_outbound(keys, intent.from);
        if !from_dirs.output().cardinality().allows(outb) {
            assert(ep.contains_key(intent.from));
            return false;
        }
        j = j + 1;
    }
    assert forall|id: EndpointId| #[trigger] ep.contains_key(id) implies card_allows(
        ep[id].input_dir().card(),
        inbound(kv, id) as int,
    ) && card_allows(ep[id].output_dir().card(), outbound(kv, id) as int) by {
        if inbound(kv, id) > 0 {
            lemma_filter_witness(kv, consumes(id));
            let i = choose|i: int| 0 <= i < kv.len() && consumes(id)(#[trigger] kv[i]);
            assert(serves_consumer(ep, intents@, kv[i]));
            let c = choose|c: EndpointId|
                is_consumer(intents@, c) && #[trigger] channel_of(ep, intents@, kv[i], c);
            assert(kv[i].2.to_set().contains(id));
            assert(consumers_like(ep, intents@, c).contains(id));
            let q = choose|q: int| 0 <= q < intents@.len() && #[trigger] intents@[q].to == id;
            assert(card_allows(ep[intents@[q].to].input_dir().card(), inbound(kv, id) as int));
        }
        if outbound(kv, id) > 0 {
            lemma_filter_witness(kv, produces(id));
            let i = choose|i: int| 0 <= i < kv.len() && produces(id)(#[trigger] kv[i]);
            assert(serves_consumer(ep, intents@, kv[i]));
            let c = choose|c: EndpointId|
                is_consumer(intents@, c) && #[trigger] channel_of(ep, intents@, kv[i], c);
            assert(kv[i].1.to_set().contains(id));
            assert(producers_of(intents@, c).contains(id));
            assert(feeds(intents@, id, c));
            let q = choose|q: int|
                0 <= q < intents@.len() && #[trigger] intents@[q].from == id && intents@[q].to == c;
            assert(card_allows(
                ep[intents@[q].from].output_dir().card(),
                outbound(kv, id) as int,
            ));
        }
    }
    true
}

/// The channel specifications of the keys, in order.
fn channel_specs(keys: &Vec<ChannelKey>) -> (r: Vec<ChannelSpec>)
    ensures
        r@.map_values(|c: ChannelSpec| c@) == key_views(keys@),
{
    let ghost kv = key_views(keys@);
    let mut out: Vec<ChannelSpec> = Vec::new();
    let mut i: usize = 0;
    while i < keys.len()
        invariant
            i <= keys@.len(),
            kv == key_views(keys@),
            kv.len() == keys@.len(),
            out@.len() == i,
            forall|q: int| 0 <= q < i ==> #[trigger] out@[q]@ == kv[q],
        decreases keys@.len() - i,
    {
        let key = keys[i].clone();
        assert(kv[i as int] == keys@[i as int]@);
        out.push(ChannelSpec { key });
        i = i + 1;
    }
    assert(out@.map_values(|c: ChannelSpec| c@) =~= kv);
    out
}

/// For each intent, the route of its flow over the first channel that
/// carries it.
fn plan_routes(
    endpoints: &HashMap<EndpointId, EndpointDirections>,
    intents: &[Intent],
    flows: &Vec<FlowSpec>,
    keys: &Vec<ChannelKey>,
) -> (r: Vec<IntentRoute>)
    requires
        flows_match(endpoints@, intents@, flows@),
        valid_channels(endpoints@, intents@, key_views(keys@)),
    ensures
        routes_ok(endpoints@, intents@, key_views(keys@), r@),
{
    let ghost ep = endpoints@;
    let ghost kv = key_views(keys@);
    let n = intents.len();
    let mut routes: Vec<IntentRoute> = Vec::new();
    let mut idx: usize = 0;
    while idx < n
        invariant
            n == intents@.len(),
            idx <= n,
            ep == endpoints@,
            kv == key_views(keys@),
            kv.len() == keys@.len(),
            flows_match(ep, intents@, flows@),
            valid_channels(ep, intents@, kv),
            routes@.len() == idx,
            forall|q: int| 0 <= q < idx ==> #[trigger] route_ok(ep, kv, intents@[q], routes@[q]),
        decreases n - idx,
    {
        let intent = intents[idx];
        let schema = flows[idx].schema;
        assert(flows@[idx as int].producer == intents@[idx as int].from);
        assert(schema@ == ep[intent.from].output_dir().schema());
        let mut p: usize = 0;
        while p < keys.len() && !keys[p].contains(schema, intent.from, intent.to)
            invariant
                p <= keys@.len(),
                kv == key_views(keys@),
                kv.len() == keys@.len(),
                forall|q: int| 0 <= q < p ==> !carries(#[trigger] kv[q], schema@, intent.from, intent.to),
            decreases keys@.len() - p,
        {
            assert(kv[p as int] == keys@[p as int]@);
            p = p + 1;
        }
        if p == keys.len() {
            proof {
                assert(is_consumer(intents@, intent.to)) by {
                    assert(intents@[idx as int].to == intent.to);
                }
                let i = choose|i: int|
                    0 <= i < kv.len() && #[trigger] channel_of(ep, intents@, kv[i], intent.to);
                assert(feeds(intents@, intent.from, intent.to)) by {
                    assert(intents@[idx as int].from == intent.from);
                }
                assert(kv[i].1.to_set().contains(intent.from));
                assert(consumers_like(ep, intents@, intent.to).contains(intent.to));
                assert(kv[i].2.to_set().contains(intent.to));
                assert(carries(kv[i], schema@, intent.from, intent.to));
            }
            return routes;
        }
        assert(kv[p as int] == keys@[p as int]@);
        let mut flow_routes: Vec<FlowRoute> = Vec::new();
        flow_routes.push(FlowRoute { producer: intent.from, consumer: intent.to, channel: p });
        let route = IntentRoute { from: intent.from, to: intent.to, flows: flow_routes };
        assert(route_ok(ep, kv, intents@[idx as int], route));
        routes.push(route);
        proof {
            assert forall|q: int| 0 <= q < idx + 1 implies #[trigger] route_ok(
                ep,
                kv,
                intents@[q],
                routes@[q],
            ) by {
                if q < idx {
                    assert(routes@[q] == routes@.drop_last()[q]);
                }
            }
        }
        idx = idx + 1;
    }
    routes
}

/// The channels of a plan are determined by the endpoints and intents:
/// any two lists of channel keys that meet [`valid_channels`] for the same
/// endpoints and intents are the same list. So the channel list of a
/// solution, and whether some endpoint's cardinality is exceeded, do not
/// depend on the order in which the planner happens to group consumers.
pub proof fn lemma_channels_determined(
    ep: Map<EndpointId, EndpointDirections>,
    intents: Seq<Intent>,
    a: Seq<KeyView>,
    b: Seq<KeyView>,
)
    requires
        valid_channels(ep, intents, a),
        valid_channels(ep, intents, b),
    ensures
        a == b,
{
    assert forall|k: KeyView| a.contains(k) implies b.contains(k) by {
        lemma_valid_member(ep, intents, a, b, k);
    }
    assert forall|k: KeyView| b.contains(k) implies a.contains(k) by {
        lemma_valid_member(ep, intents, b, a, k);
    }
    lemma_increasing_unique(a, b);
}

/// A channel of one valid list is a channel of any other.
proof fn lemma_valid_member(
    ep: Map<EndpointId, EndpointDirections>,
    intents: Seq<Intent>,
    a: Seq<KeyView>,
    b: Seq<KeyView>,
    k: KeyView,
)
    requires
        valid_channels(ep, intents, a),
        valid_channels(ep, intents, b),
        a.contains(k),
    ensures
        b.contains(k),
{
    let i = choose|i: int| 0 <= i < a.len() && a[i] == k;
    assert(serves_consumer(ep, intents, a[i]));
    let c = choose|c: EndpointId| is_consumer(intents, c) && #[trigger] channel_of(ep, intents, k, c);
    let j = choose|j: int| 0 <= j < b.len() && #[trigger] channel_of(ep, intents, b[j], c);
    lemma_key_sets_determine(k, b[j]);
    assert(b[j] == k);
}

/// Solver interface for producing wiring plans.
pub trait Solver {
    /// What this solver promises of a result for the given endpoints and
    /// intents.
    spec fn solves(
        &self,
        endpoints: Map<EndpointId, EndpointDirections>,
        intents: Seq<Intent>,
        r: Result<Solution, SwitchboardError>,
    ) -> bool;

    /// Build a wiring solution for the supplied endpoints and intents.
    fn solve(
        &self,
        endpoints: &HashMap<EndpointId, EndpointDirections>,
        intents: &[Intent],
    ) -> (r: Result<Solution, SwitchboardError>)
        ensures
            self.solves(endpoints@, intents@, r),
    ;
}

/// Default `Solver` implementation used by `SwitchboardCore`.
#[derive(Clone, Copy, Debug, Default)]
pub struct DefaultSolver;

impl Solver for DefaultSolver {
    open spec fn solves(
        &self,
        endpoints: Map<EndpointId, EndpointDirections>,
        intents: Seq<Intent>,
        r: Result<Solution, SwitchboardError>,
    ) -> bool {
        solve_result(endpoints, intents, r)
    }

    /// Plan the channels and routes: the first intent that cannot become a
    /// flow decides the error; otherwise the consumers are grouped into
    /// channels, the cardinalities are checked, and every intent is routed.
    fn solve(
        &self,
        endpoints: &HashMap<EndpointId, EndpointDirections>,
        intents: &[Intent],
    ) -> (r: Result<Solution, SwitchboardError>) {
        let flows = match self.plan_flows(endpoints, intents) {
            Ok(f) => f,
            Err(e) => {
                return Err(e);
            },
        };
        let keys = plan_channels(endpoints, intents, &flows);
        if !cardinality_allows(endpoints, intents, &flows, &keys) {
            assert(valid_channels(endpoints@, intents@, key_views(keys@)) && !cardinality_ok(
                endpoints@,
                key_views(keys@),
            ));
            return Err(SwitchboardError::Unsolveable);
        }
        let channels = channel_specs(&keys);
        let routes = plan_routes(endpoints, intents, &flows, &keys);
        let solution = Solution { channels, routes };
        assert(solution_keys(solution) == key_views(keys@));
        Ok(solution)
    }
}

/// Intents that reference only registered endpoints, each pair once.
pub open spec fn intents_wf(ep: Map<EndpointId, EndpointDirections>, intents: Seq<Intent>) -> bool {
    &&& forall|i: int|
        0 <= i < intents.len() ==> ep.contains_key(#[trigger] intents[i].from) && ep.contains_key(
            intents[i].to,
        )
    &&& intents.no_duplicates()
}

/// The intent does not touch the endpoint `id`.
pub open spec fn avoids(id: EndpointId) -> spec_fn(Intent) -> bool {
    |i: Intent| i.from != id && i.to != id
}

/// The intent is not the one from `from` to `to`.
pub open spec fn other_than(from: EndpointId, to: EndpointId) -> spec_fn(Intent) -> bool {
    |i: Intent| i.from != from || i.to != to
}

/// Filtering a list extended by one item.
proof fn lemma_filter_push<A>(s: Seq<A>, x: A, f: spec_fn(A) -> bool)
    ensures
        s.push(x).filter(f) == if f(x) {
            s.filter(f).push(x)
        } else {
            s.filter(f)
        },
{
    reveal_with_fuel(Seq::filter, 1);
    assert(s.push(x).drop_last() =~= s);
}

/// What a filter keeps is among what it was given.
proof fn lemma_filter_members<A>(s: Seq<A>, f: spec_fn(A) -> bool)
    ensures
        forall|x: A| #[trigger] s.filter(f).contains(x) ==> s.contains(x) && f(x),
    decreases s.len(),
{
    reveal_with_fuel(Seq::filter, 1);
    if s.len() > 0 {
        lemma_filter_members(s.drop_last(), f);
        let t = s.drop_last().filter(f);
        assert forall|x: A| #[trigger] s.filter(f).contains(x) implies s.contains(x) && f(x) by {
            let k = choose|k: int| 0 <= k < s.filter(f).len() && s.filter(f)[k] == x;
            if f(s.last()) && k == t.len() {
                assert(s[s.len() - 1] == x);
            } else {
                assert(t[k] == x);
                assert(t.contains(x));
                let j = choose|j: int| 0 <= j < s.drop_last().len() && s.drop_last()[j] == x;
                assert(s[j] == x);
            }
        }
    }
}

/// Filtering keeps a list free of duplicates.
proof fn lemma_filter_unique<A>(s: Seq<A>, f: spec_fn(A) -> bool)
    requires
        s.no_duplicates(),
    ensures
        s.filter(f).no_duplicates(),
    decreases s.len(),
{
    reveal_with_fuel(Seq::filter, 1);
    if s.len() > 0 {
        let d = s.drop_last();
        assert(d.no_duplicates()) by {
            assert forall|i: int, j: int|
                0 <= i < d.len() && 0 <= j < d.len() && i != j implies d[i] != d[j] by {
                assert(s[i] != s[j]);
            }
        }
        lemma_filter_unique(d, f);
        lemma_filter_members(d, f);
        if f(s.last()) {
            let t = d.filter(f);
            assert(!t.contains(s.last())) by {
                if t.contains(s.last()) {
                    assert(d.contains(s.last()));
                    let m = choose|m: int| 0 <= m < d.len() && d[m] == s.last();
                    assert(s[m] == s[s.len() - 1]);
                }
            }
            let u = t.push(s.last());
            assert forall|i: int, j: int|
                0 <= i < u.len() && 0 <= j < u.len() && i != j implies u[i] != u[j] by {
                if i == t.len() {
                    assert(t.contains(t[j]));
                } else if j == t.len() {
                    assert(t.contains(t[i]));
                }
            }
        }
    }
}

/// The intents of `intents` that `f` keeps, in order.
fn retain_intents(intents: &Vec<Intent>, f: Ghost<spec_fn(Intent) -> bool>, drop_from: EndpointId, drop_to: EndpointId, by_endpoint: bool) -> (r: Vec<Intent>)
    requires
        by_endpoint ==> f@ == avoids(drop_from),
        !by_endpoint ==> f@ == other_than(drop_from, drop_to),
    ensures
        r@ == intents@.filter(f@),
{
    let mut out: Vec<Intent> = Vec::new();
    let mut i: usize = 0;
    while i < intents.len()
        invariant
            i <= intents@.len(),
            by_endpoint ==> f@ == avoids(drop_from),
            !by_endpoint ==> f@ == other_than(drop_from, drop_to),
            out@ == intents@.subrange(0, i as int).filter(f@),
        decreases intents@.len() - i,
    {
        let it = intents[i];
        proof {
            assert(intents@.subrange(0, i + 1) =~= intents@.subrange(0, i as int).push(it));
            lemma_filter_push(intents@.subrange(0, i as int), it, f@);
        }
        let keep = if by_endpoint {
            it.from != drop_from && it.to != drop_from
        } else {
            it.from != drop_from || it.to != drop_to
        };
        if keep {
            out.push(it);
        }
        i = i + 1;
    }
    assert(intents@.subrange(0, intents@.len() as int) =~= intents@);
    out
}

/// Whether the intent from `from` to `to` is among `intents`.
fn has_intent(intents: &[Intent], from: EndpointId, to: EndpointId) -> (r: bool)
    ensures
        r == intents@.contains(Intent { from, to }),
{
    let mut k: usize = 0;
    while k < intents.len()
        invariant
            k <= intents@.len(),
            forall|j: int| 0 <= j < k ==> intents@[j] != (Intent { from, to }),
        decreases intents@.len() - k,
    {
        if intents[k].from == from && intents[k].to == to {
            assert(intents@[k as int] == (Intent { from, to }));
            return true;
        }
        k = k + 1;
    }
    false
}

/// In-memory state tracker for endpoints and intents.
pub struct SwitchboardCore<S: Solver = DefaultSolver> {
    endpoints: HashMap<EndpointId, EndpointDirections>,
    intents: Vec<Intent>,
    solver: S,
    next_id: EndpointId,
}

impl<S: Solver> SwitchboardCore<S> {
    /// The registered endpoints.
    pub closed spec fn endpoint_map(&self) -> Map<EndpointId, EndpointDirections> {
        self.endpoints@
    }

    /// The registered intents, in registration order.
    pub closed spec fn intent_list(&self) -> Seq<Intent> {
        self.intents@
    }

    /// The identifier the next endpoint will get.
    pub closed spec fn next_endpoint(&self) -> EndpointId {
        self.next_id
    }

    /// The solver that plans the wiring.
    pub closed spec fn spec_solver(&self) -> S {
        self.solver
    }

    #[verifier::type_invariant]
    closed spec fn inv(&self) -> bool {
        intents_wf(self.endpoints@, self.intents@)
    }

    /// Create a new core with the supplied solver.
    pub fn new(solver: S) -> (r: Self)
        ensures
            r.endpoint_map() == Map::<EndpointId, EndpointDirections>::empty(),
            r.intent_list() == Seq::<Intent>::empty(),
            r.next_endpoint() == 1,
            r.spec_solver() == solver,
    {
        let endpoints: HashMap<EndpointId, EndpointDirections> = HashMap::new();
        let intents: Vec<Intent> = Vec::new();
        assert(intents_wf(endpoints@, intents@));
        SwitchboardCore { endpoints, intents, solver, next_id: 1 }
    }

    /// Register a new endpoint and return its identifier. Identifiers count
    /// up from one and stay at the largest value once they reach it.
    pub fn add_endpoint(&mut self, directions: EndpointDirections) -> (id: EndpointId)
        ensures
            id == old(self).next_endpoint(),
            final(self).endpoint_map() == old(self).endpoint_map().insert(id, directions),
            final(self).intent_list() == old(self).intent_list(),
            final(self).next_endpoint() == (if old(self).next_endpoint() == u32::MAX {
                u32::MAX
            } else {
                (old(self).next_endpoint() + 1) as u32
            }),
            final(self).spec_solver() == old(self).spec_solver(),
    {
        proof {
            use_type_invariant(&*self);
        }
        let id = self.next_id;
        self.next_id = self.next_id.saturating_add(1);
        let mut intents: Vec<Intent> = Vec::new();
        std::mem::swap(&mut intents, &mut self.intents);
        let mut endpoints: HashMap<EndpointId, EndpointDirections> = HashMap::new();
        std::mem::swap(&mut endpoints, &mut self.endpoints);
        endpoints.insert(id, directions);
        assert(intents_wf(endpoints@, intents@)) by {
            assert forall|i: int| 0 <= i < intents@.len() implies endpoints@.contains_key(
                #[trigger] intents@[i].from,
            ) && endpoints@.contains_key(intents@[i].to) by {}
        }
        self.endpoints = endpoints;
        self.intents = intents;
        id
    }

    /// Remove an endpoint and any intents referencing it.
    pub fn remove_endpoint(&mut self, endpoint_id: EndpointId)
        ensures
            final(self).endpoint_map() == old(self).endpoint_map().remove(endpoint_id),
            final(self).intent_list() == old(self).intent_list().filter(avoids(endpoint_id)),
            final(self).next_endpoint() == old(self).next_endpoint(),
            final(self).spec_solver() == old(self).spec_solver(),
    {
        proof {
            use_type_invariant(&*self);
        }
        let kept = retain_intents(&self.intents, Ghost(avoids(endpoint_id)), endpoint_id, 0, true);
        let mut dropped: Vec<Intent> = Vec::new();
        std::mem::swap(&mut dropped, &mut self.intents);
        let mut endpoints: HashMap<EndpointId, EndpointDirections> = HashMap::new();
        std::mem::swap(&mut endpoints, &mut self.endpoints);
        endpoints.remove(&endpoint_id);
        proof {
            let old_intents = old(self).intent_list();
            lemma_filter_members(old_intents, avoids(endpoint_id));
            lemma_filter_unique(old_intents, avoids(endpoint_id));
            assert forall|i: int| 0 <= i < kept@.len() implies endpoints@.contains_key(
                #[trigger] kept@[i].from,
            ) && endpoints@.contains_key(kept@[i].to) by {
                assert(kept@.contains(kept@[i]));
                let j = choose|j: int| 0 <= j < old_intents.len() && old_intents[j] == kept@[i];
                assert(old(self).endpoint_map().contains_key(old_intents[j].from));
            }
        }
        self.endpoints = endpoints;
        self.intents = kept;
    }

    /// Access the registered endpoints.
    pub fn endpoints(&self) -> (r: &HashMap<EndpointId, EndpointDirections>)
        ensures
            r@ == self.endpoint_map(),
    {
        &self.endpoints
    }

    /// Access the registered intents. Each references registered endpoints
    /// only, and no pair of endpoints occurs twice.
    pub fn intents(&self) -> (r: &[Intent])
        ensures
            r@ == self.intent_list(),
            intents_wf(self.endpoint_map(), r@),
    {
        proof {
            use_type_invariant(self);
        }
        self.intents.as_slice()
    }

    /// Add a new intent between endpoints. Both must be registered; adding
    /// an intent that is already there changes nothing.
    pub fn add_intent(&mut self, from: EndpointId, to: EndpointId) -> (r: Result<(), SwitchboardError>)
        ensures
            final(self).endpoint_map() == old(self).endpoint_map(),
            final(self).next_endpoint() == old(self).next_endpoint(),
            final(self).spec_solver() == old(self).spec_solver(),
            match r {
                Err(e) => {
                    &&& e == SwitchboardError::InvalidEndpoint
                    &&& !(old(self).endpoint_map().contains_key(from) && old(
                        self,
                    ).endpoint_map().contains_key(to))
                    &&& final(self).intent_list() == old(self).intent_list()
                },
                Ok(()) => {
                    &&& old(self).endpoint_map().contains_key(from)
                    &&& old(self).endpoint_map().contains_key(to)
                    &&& final(self).intent_list() == if old(self).intent_list().contains(
                        Intent { from, to },
                    ) {
                        old(self).intent_list()
                    } else {
                        old(self).intent_list().push(Intent { from, to })
                    }
                },
            },
    {
        proof {
            use_type_invariant(&*self);
        }
        if !self.endpoints.contains_key(&from) || !self.endpoints.contains_key(&to) {
            return Err(SwitchboardError::InvalidEndpoint);
        }
        if has_intent(self.intents.as_slice(), from, to) {
            return Ok(());
        }
        let mut intents: Vec<Intent> = Vec::new();
        std::mem::swap(&mut intents, &mut self.intents);
        let ghost endpoints = self.endpoints;
        let ghost before = intents@;
        intents.push(Intent { from, to });
        proof {
            assert(!before.contains(Intent { from, to }));
            assert forall|i: int, j: int|
                0 <= i < intents@.len() && 0 <= j < intents@.len() && i != j implies intents@[i]
                != intents@[j] by {
                if i == before.len() {
                    assert(before.contains(before[j]));
                } else if j == before.len() {
                    assert(before.contains(before[i]));
                } else {
                    assert(intents@[i] == before[i] && intents@[j] == before[j]);
                }
            }
            assert forall|i: int| 0 <= i < intents@.len() implies endpoints@.contains_key(
                #[trigger] intents@[i].from,
            ) && endpoints@.contains_key(intents@[i].to) by {
                if i < before.len() {
                    assert(intents@[i] == before[i]);
                }
            }
        }
        self.intents = intents;
        Ok(())
    }

    /// Remove a previously registered intent.
    pub fn remove_intent(&mut self, from: EndpointId, to: EndpointId)
        ensures
            final(self).endpoint_map() == old(self).endpoint_map(),
            final(self).intent_list() == old(self).intent_list().filter(other_than(from, to)),
            final(self).next_endpoint() == old(self).next_endpoint(),
            final(self).spec_solver() == old(self).spec_solver(),
    {
        proof {
            use_type_invariant(&*self);
        }
        let kept = retain_intents(&self.intents, Ghost(other_than(from, to)), from, to, false);
        proof {
            let old_intents = old(self).intent_list();
            lemma_filter_members(old_intents, other_than(from, to));
            lemma_filter_unique(old_intents, other_than(from, to));
            assert forall|i: int| 0 <= i < kept@.len() implies self.endpoints@.contains_key(
                #[trigger] kept@[i].from,
            ) && self.endpoints@.contains_key(kept@[i].to) by {
                assert(kept@.contains(kept@[i]));
                let j = choose|j: int| 0 <= j < old_intents.len() && old_intents[j] == kept@[i];
                assert(old(self).endpoint_map().contains_key(old_intents[j].from));
            }
        }
        self.intents = kept;
    }

    /// Solve the current wiring plan.
    pub fn solve(&self) -> (r: Result<Solution, SwitchboardError>)
        ensures
            self.spec_solver().solves(self.endpoint_map(), self.intent_list(), r),
    {
        self.solver.solve(&self.endpoints, self.intents.as_slice())
    }
}

impl Default for SwitchboardCore<DefaultSolver> {
    fn default() -> (r: Self)
        ensures
            r.endpoint_map() == Map::<EndpointId, EndpointDirections>::empty(),
            r.intent_list() == Seq::<Intent>::empty(),
            r.next_endpoint() == 1,
    {
        Self::new(DefaultSolver)
    }
}

} // verus!
