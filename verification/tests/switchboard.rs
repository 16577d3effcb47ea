use std::collections::HashMap;

use selium::switchboard::messaging::{
    fanout_target, ClientTarget, PublisherTarget, ServerTarget, SubscriberTarget,
};
use selium::switchboard::client::{
    connect_outcome, register_outcome, ControlRouter, SwitchboardError as ClientError,
};
use selium::switchboard::keys::{best_compatible_match, intersection_len, is_subset, ChannelKey};
use selium::switchboard::protocol::{
    Cardinality, Direction, EndpointDirections, EndpointId, Message, ProtocolError, WiringEgress, WiringIngress,
};
use selium::switchboard::service::{
    build_wiring, connect_endpoints, plan_channel_reuse, register_endpoint, wiring_update,
    ChannelAction, EndpointWiring,
};
use selium::switchboard::solver::{
    DefaultSolver, FlowRoute, Intent, IntentRoute, Solver, SwitchboardCore, SwitchboardError,
};

const A: [u8; 16] = [1; 16];
const B: [u8; 16] = [2; 16];

fn dirs(input: ([u8; 16], Cardinality), output: ([u8; 16], Cardinality)) -> EndpointDirections {
    EndpointDirections::new(Direction::new(input.0, input.1), Direction::new(output.0, output.1))
}

fn producer(schema: [u8; 16]) -> EndpointDirections {
    dirs((schema, Cardinality::Zero), (schema, Cardinality::Many))
}

fn consumer(schema: [u8; 16]) -> EndpointDirections {
    dirs((schema, Cardinality::Many), (schema, Cardinality::Zero))
}

fn key(schema: [u8; 16], producers: &[EndpointId], consumers: &[EndpointId]) -> ChannelKey {
    ChannelKey::new(schema, producers, consumers)
}

#[test]
fn producers_sharing_a_consumer_share_a_channel() {
    let mut endpoints = HashMap::new();
    endpoints.insert(1, producer(A));
    endpoints.insert(2, producer(A));
    endpoints.insert(3, consumer(A));
    let intents = [Intent { from: 1, to: 3 }, Intent { from: 2, to: 3 }];
    let solution = DefaultSolver.solve(&endpoints, &intents).expect("solve");
    assert_eq!(solution.channels.len(), 1);
    assert!(solution.channels[0].key().same_as(&key(A, &[2, 1], &[3])));
    assert_eq!(solution.routes.len(), 2);
    for (route, intent) in solution.routes.iter().zip(intents.iter()) {
        assert_eq!((route.from, route.to), (intent.from, intent.to));
        assert_eq!(
            route.flows,
            vec![FlowRoute { producer: intent.from, consumer: intent.to, channel: 0 }]
        );
    }
}

#[test]
fn fanout_consumers_share_a_channel_and_channels_are_sorted() {
    let mut endpoints = HashMap::new();
    endpoints.insert(1, producer(A));
    endpoints.insert(2, consumer(A));
    endpoints.insert(3, consumer(A));
    endpoints.insert(4, producer(A));
    endpoints.insert(5, consumer(A));
    let intents = [
        Intent { from: 4, to: 5 },
        Intent { from: 1, to: 3 },
        Intent { from: 1, to: 2 },
    ];
    let solution = DefaultSolver.solve(&endpoints, &intents).expect("solve");
    assert_eq!(solution.channels.len(), 2);
    assert!(solution.channels[0].key().same_as(&key(A, &[1], &[2, 3])));
    assert!(solution.channels[1].key().same_as(&key(A, &[4], &[5])));
    assert_eq!(solution.routes[0].flows[0].channel, 1);
    assert_eq!(solution.routes[1].flows[0].channel, 0);
    assert_eq!(solution.routes[2].flows[0].channel, 0);
}

#[test]
fn unknown_endpoint_is_invalid() {
    let mut endpoints = HashMap::new();
    endpoints.insert(1, producer(A));
    let result = DefaultSolver.solve(&endpoints, &[Intent { from: 1, to: 9 }]);
    assert_eq!(result.unwrap_err(), SwitchboardError::InvalidEndpoint);
}

#[test]
fn schema_mismatch_and_closed_directions_are_rejected() {
    let mut endpoints = HashMap::new();
    endpoints.insert(1, producer(A));
    endpoints.insert(2, consumer(B));
    endpoints.insert(3, producer(A));
    let result = DefaultSolver.solve(&endpoints, &[Intent { from: 1, to: 2 }]);
    assert_eq!(result.unwrap_err(), SwitchboardError::DirectionMismatch);
    // A producer has no input: it cannot consume.
    let result = DefaultSolver.solve(&endpoints, &[Intent { from: 1, to: 3 }]);
    assert_eq!(result.unwrap_err(), SwitchboardError::DirectionMismatch);
}

#[test]
fn first_failing_intent_decides_the_error() {
    let mut endpoints = HashMap::new();
    endpoints.insert(1, producer(A));
    endpoints.insert(2, consumer(B));
    let intents = [Intent { from: 1, to: 2 }, Intent { from: 1, to: 7 }];
    assert_eq!(
        DefaultSolver.solve(&endpoints, &intents).unwrap_err(),
        SwitchboardError::DirectionMismatch
    );
}

#[test]
fn exceeding_an_output_cardinality_is_unsolveable() {
    let mut endpoints = HashMap::new();
    endpoints.insert(1, dirs((A, Cardinality::Zero), (A, Cardinality::One)));
    endpoints.insert(2, producer(A));
    endpoints.insert(3, consumer(A));
    endpoints.insert(4, consumer(A));
    // 1 feeds {3} alone and {4} together with 2: two channels.
    let intents = [
        Intent { from: 1, to: 3 },
        Intent { from: 1, to: 4 },
        Intent { from: 2, to: 4 },
    ];
    assert_eq!(
        DefaultSolver.solve(&endpoints, &intents).unwrap_err(),
        SwitchboardError::Unsolveable
    );
    // Feeding one channel is within its limit.
    assert!(DefaultSolver.solve(&endpoints, &intents[..2]).is_ok());
}

#[test]
fn empty_plan_has_no_channels() {
    let endpoints: HashMap<EndpointId, EndpointDirections> = HashMap::new();
    let solution = DefaultSolver.solve(&endpoints, &[]).expect("solve");
    assert!(solution.channels.is_empty());
    assert!(solution.routes.is_empty());
}

#[test]
fn core_tracks_endpoints_and_intents() {
    let mut core: SwitchboardCore = SwitchboardCore::default();
    let p = core.add_endpoint(producer(A));
    let c = core.add_endpoint(consumer(A));
    assert_eq!((p, c), (1, 2));
    assert_eq!(core.add_intent(p, 99), Err(SwitchboardError::InvalidEndpoint));
    assert_eq!(core.add_intent(p, c), Ok(()));
    assert_eq!(core.add_intent(p, c), Ok(()));
    assert_eq!(core.intents(), &[Intent { from: p, to: c }]);
    assert_eq!(core.solve().expect("solve").channels.len(), 1);
    core.remove_intent(p, c);
    assert!(core.intents().is_empty());
    core.add_intent(p, c).expect("intent");
    core.remove_endpoint(c);
    assert!(core.intents().is_empty());
    assert!(!core.endpoints().contains_key(&c));
    assert!(core.endpoints().contains_key(&p));
}

#[test]
fn subset_and_intersection_on_sorted_ids() {
    assert!(is_subset(&[1, 3], &[1, 2, 3]));
    assert!(!is_subset(&[1, 4], &[1, 2, 3]));
    assert!(is_subset(&[], &[1]));
    assert_eq!(intersection_len(&[1, 2, 5, 7], &[2, 3, 5, 7, 9]), 3);
    assert_eq!(intersection_len(&[], &[1]), 0);
}

#[test]
fn channel_key_canonicalises_and_checks_compatibility() {
    let k = key(A, &[3, 1, 3], &[2]);
    assert_eq!(k.producers(), &[1, 3]);
    assert!(k.contains(A, 3, 2));
    assert!(!k.contains(B, 3, 2));
    assert!(k.is_compatible(&key(A, &[1], &[2, 4])));
    assert!(!k.is_compatible(&key(A, &[1, 4], &[2])));
    assert!(!k.is_compatible(&key(B, &[1, 3], &[2])));
}

#[test]
fn best_match_prefers_score_then_penalty_then_position() {
    let desired = key(A, &[1, 2], &[5]);
    let available = [
        key(A, &[1], &[5]),
        key(A, &[1, 2, 3], &[5]),
        key(A, &[2], &[5]),
        key(B, &[1, 2], &[5]),
    ];
    // Scores: 2, 3, 2, -; the superset wins.
    assert_eq!(best_compatible_match(&available, &desired), Some(1));
    // Equal score and penalty: the first one wins.
    assert_eq!(best_compatible_match(&[key(A, &[1], &[5]), key(A, &[2], &[5])], &desired), Some(0));
    assert_eq!(best_compatible_match(&[key(B, &[1], &[5])], &desired), None);
}

#[test]
fn reuse_plan_takes_exact_then_compatible_then_creates() {
    let available = [key(A, &[1], &[2]), key(A, &[3], &[4]), key(B, &[5], &[6])];
    let desired = [key(A, &[3], &[4]), key(A, &[1], &[2, 7]), key(A, &[8], &[9])];
    let plan = plan_channel_reuse(&available, &desired);
    assert_eq!(
        plan.actions,
        vec![ChannelAction::Reuse(1), ChannelAction::Reuse(0), ChannelAction::Create]
    );
    assert_eq!(plan.released, vec![2]);
}

#[test]
fn reuse_plan_swap_removes_like_vec() {
    let available = [key(A, &[1], &[2]), key(A, &[3], &[4]), key(A, &[5], &[6])];
    let desired = [key(A, &[1], &[2])];
    let plan = plan_channel_reuse(&available, &desired);
    assert_eq!(plan.actions, vec![ChannelAction::Reuse(0)]);
    // The last entry took the reused one's place.
    assert_eq!(plan.released, vec![2, 1]);
}

#[test]
fn wiring_is_sorted_and_one_entry_per_channel() {
    let routes = vec![
        IntentRoute {
            from: 7,
            to: 9,
            flows: vec![FlowRoute { producer: 7, consumer: 9, channel: 1 }],
        },
        IntentRoute {
            from: 3,
            to: 9,
            flows: vec![FlowRoute { producer: 3, consumer: 9, channel: 1 }],
        },
        IntentRoute {
            from: 3,
            to: 8,
            flows: vec![FlowRoute { producer: 3, consumer: 8, channel: 0 }],
        },
    ];
    let wiring = build_wiring(&routes, &[500, 400]).expect("wiring");
    assert_eq!(wiring.len(), 4);
    assert_eq!(wiring[&9].inbound, vec![WiringIngress { from: 3, channel: 400 }]);
    assert!(wiring[&9].outbound.is_empty());
    assert_eq!(
        wiring[&3].outbound,
        vec![WiringEgress { to: 9, channel: 400 }, WiringEgress { to: 8, channel: 500 }]
    );
    assert_eq!(wiring[&7].outbound, vec![WiringEgress { to: 9, channel: 400 }]);
    assert_eq!(wiring[&8].inbound, vec![WiringIngress { from: 3, channel: 500 }]);
}

#[test]
fn wiring_with_a_missing_channel_is_unsolveable() {
    let routes = vec![IntentRoute {
        from: 1,
        to: 2,
        flows: vec![FlowRoute { producer: 1, consumer: 2, channel: 3 }],
    }];
    assert_eq!(build_wiring(&routes, &[10]).unwrap_err(), SwitchboardError::Unsolveable);
}

#[test]
fn switchboard_error_messages() {
    assert_eq!(SwitchboardError::InvalidEndpoint.message(), "invalid endpoint");
    assert_eq!(SwitchboardError::DirectionMismatch.message(), "directions cannot be connected");
    assert_eq!(SwitchboardError::Unsolveable.message(), "graph cannot be solved");
}

#[test]
fn endpoint_ids_are_their_own_targets() {
    let id: EndpointId = 42;
    assert_eq!(ClientTarget::<u8, u16>::endpoint_id(&id), 42);
    assert_eq!(SubscriberTarget::<u8>::endpoint_id(&id), 42);
    assert_eq!(PublisherTarget::<u8>::endpoint_id(&id), 42);
    assert_eq!(ServerTarget::<u8, u16>::endpoint_id(&id), 42);
}

#[test]
fn fanout_round_robins() {
    assert_eq!(fanout_target(0, 0), None);
    assert_eq!(fanout_target(0, 3), Some((0, 1)));
    assert_eq!(fanout_target(2, 3), Some((2, 0)));
    assert_eq!(fanout_target(7, 3), Some((1, 2)));
}

#[test]
fn registration_is_planned_and_kept() {
    let mut core = SwitchboardCore::default();
    let (id, planned) = register_endpoint(&mut core, producer(A));
    assert_eq!(id, 1);
    let solution = planned.expect("plan");
    assert!(solution.channels.is_empty());
    assert!(core.endpoints().contains_key(&1));
}

#[test]
fn refused_registration_is_withdrawn() {
    let mut core = SwitchboardCore::default();
    let p = core.add_endpoint(producer(A));
    let c = core.add_endpoint(consumer(B));
    core.add_intent(p, c).expect("both registered");
    let (id, planned) = register_endpoint(&mut core, producer(A));
    assert_eq!(id, 3);
    assert_eq!(planned.err(), Some(SwitchboardError::DirectionMismatch));
    assert_eq!(core.endpoints().len(), 2);
    assert!(!core.endpoints().contains_key(&3));
    assert_eq!(core.intents(), &[Intent { from: p, to: c }]);
    assert_eq!(core.add_endpoint(producer(A)), 4);
}

#[test]
fn connection_is_planned_and_kept() {
    let mut core = SwitchboardCore::default();
    let (p, _) = register_endpoint(&mut core, producer(A));
    let (c, _) = register_endpoint(&mut core, consumer(A));
    let solution = connect_endpoints(&mut core, p, c).expect("plan");
    assert_eq!(solution.channels.len(), 1);
    assert_eq!(solution.routes.len(), 1);
    assert_eq!(core.intents(), &[Intent { from: p, to: c }]);
}

#[test]
fn refused_connection_is_withdrawn() {
    let mut core = SwitchboardCore::default();
    let (p, _) = register_endpoint(&mut core, producer(A));
    let (c, _) = register_endpoint(&mut core, consumer(B));
    assert_eq!(connect_endpoints(&mut core, p, c).err(), Some(SwitchboardError::DirectionMismatch));
    assert!(core.intents().is_empty());
    assert_eq!(connect_endpoints(&mut core, p, 9).err(), Some(SwitchboardError::InvalidEndpoint));
    assert!(core.intents().is_empty());
    assert_eq!(core.endpoints().len(), 2);
}

#[test]
fn protocol_errors_describe_themselves() {
    assert_eq!(ProtocolError::MissingSchemaId.message(), "missing schema identifier");
    assert_eq!(ProtocolError::UnknownCardinality.message(), "unknown cardinality variant");
    assert_eq!(
        ProtocolError::InvalidFlatbuffer("range out of bounds".to_owned()).message(),
        "invalid flatbuffer: range out of bounds"
    );
}

#[test]
fn replies_reach_the_request_that_waits_for_them() {
    let mut router = ControlRouter::new();
    router.await_reply(7, 70);
    router.await_reply(8, 80);
    let reply = Message::ResponseOk { request_id: 8 };
    assert_eq!(router.route(&reply, vec![1, 2]), Some((80, vec![1, 2])));
    assert_eq!(router.route(&reply, vec![1, 2]), None);
    let reply = Message::ResponseRegister { request_id: 7, endpoint_id: 3 };
    assert_eq!(router.route(&reply, vec![9]), Some((70, vec![9])));
    router.await_reply(9, 90);
    router.settle(9);
    assert_eq!(router.route(&Message::ResponseOk { request_id: 9 }, vec![]), None);
}

#[test]
fn early_updates_are_held_until_the_endpoint_registers() {
    let mut router = ControlRouter::new();
    let update = Message::WiringUpdate { endpoint_id: 4, inbound: Vec::new(), outbound: Vec::new() };
    assert_eq!(router.route(&update, vec![1]), None);
    assert_eq!(router.route(&update, vec![2]), None);
    assert_eq!(router.register_endpoint_channel(4, 40), vec![vec![1], vec![2]]);
    assert_eq!(router.route(&update, vec![3]), Some((40, vec![3])));
    assert_eq!(router.register_endpoint_channel(5, 50), Vec::<Vec<u8>>::new());
    let request = Message::ConnectRequest { request_id: 1, from: 1, to: 2, reply_channel: 3 };
    assert_eq!(router.route(&request, vec![0]), None);
}

#[test]
fn replies_give_request_outcomes() {
    assert_eq!(connect_outcome(Message::ResponseOk { request_id: 1 }), Ok(()));
    assert_eq!(
        connect_outcome(Message::ResponseError { request_id: 1, message: "graph cannot be solved".to_owned() }),
        Err(ClientError::Remote("graph cannot be solved".to_owned()))
    );
    assert_eq!(
        connect_outcome(Message::ResponseRegister { request_id: 1, endpoint_id: 2 }),
        Err(ClientError::Protocol(ProtocolError::UnknownPayload))
    );
    assert_eq!(register_outcome(Message::ResponseRegister { request_id: 1, endpoint_id: 2 }), Ok(2));
    assert_eq!(
        register_outcome(Message::ResponseOk { request_id: 1 }),
        Err(ClientError::Protocol(ProtocolError::UnknownPayload))
    );
}

#[test]
fn each_endpoint_is_sent_its_planned_wiring() {
    let mut wiring = HashMap::new();
    wiring.insert(
        3,
        EndpointWiring {
            inbound: vec![WiringIngress { from: 1, channel: 40 }],
            outbound: Vec::new(),
        },
    );
    assert_eq!(
        wiring_update(&mut wiring, 3),
        Message::WiringUpdate {
            endpoint_id: 3,
            inbound: vec![WiringIngress { from: 1, channel: 40 }],
            outbound: Vec::new(),
        }
    );
    assert!(wiring.is_empty());
    assert_eq!(
        wiring_update(&mut wiring, 5),
        Message::WiringUpdate { endpoint_id: 5, inbound: Vec::new(), outbound: Vec::new() }
    );
}
