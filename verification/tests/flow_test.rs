use sha2::{Digest, Sha256};
use stric::backpressure::{wait_step, RateLimiterState, TokenCheck, WaitAction, WaitEvent, WaitStage};
use stric::discovery::{leading_zeros, xor_distance, RoutingTable};
use stric::flow::{
    alpn_or_default, answer_handshake, check_handshake_ack, first_matching_pattern, handle_control_message, plan_publish,
    subscribers_of, subscription_capabilities, subscription_descriptor, targets_of, ControlMessage,
    FlowConnectionMetadata, HandshakeReply, HopCountMetric, PeerMessage, RoutingMetric, SubscriptionEntry,
    TopicHandlers,
};
use stric::frame::{decode_frame, decode_length_prefixed, encode_frame, FrameError};
use stric::reconciliation::{gc_inactive_sessions, ExponentialBackoff, Session};
use stric::registry::MessageRegistry;
use stric::routing::{
    ForwardingTargets, GlobalGraph, LinkDescriptor, NodeDescriptor, NodeRole, TopologyUpdate,
};
use stric::topic::match_topic;

const SECOND: u128 = 1_000_000_000;
const MILLI: u128 = 1_000_000;

fn flow_node(id: &str) -> NodeDescriptor {
    NodeDescriptor { node_id: id.to_string(), role: NodeRole::Flow, capabilities: vec![], last_seen: 0 }
}

fn link(a: &str, b: &str, hop_cost: u32) -> LinkDescriptor {
    LinkDescriptor { node_a: a.to_string(), node_b: b.to_string(), hop_cost, rtt_micros: 0 }
}

fn lookup<'a>(table: &'a Vec<(String, ForwardingTargets)>, relay: &str) -> Option<&'a ForwardingTargets> {
    targets_of(table, relay)
}

fn sha256(id: &str) -> [u8; 32] {
    Sha256::digest(id.as_bytes()).into()
}

#[test]
fn test_message_registry() {
    let mut registry: MessageRegistry<fn(&[u8]) -> Result<String, String>> = MessageRegistry::new();

    // Register a parser for type "test_msg"
    registry.register("test_msg", |bytes| String::from_utf8(bytes.to_vec()).map_err(|e| e.to_string()));

    // Decode
    let val: String = registry.decode("test_msg", b"hello").unwrap();
    assert_eq!(val, "hello");

    // Try decoding unregistered
    assert!(registry.decode::<String>("unknown", b"hello").is_err());
}

#[test]
fn test_registry_missing_parser_message_and_replacement() {
    let mut registry: MessageRegistry<fn(&[u8]) -> Result<usize, String>> = MessageRegistry::new();
    assert_eq!(
        registry.decode("len", b"abc"),
        Err("No parser registered for message type: len".to_string())
    );
    registry.register("len", |bytes| Ok(bytes.len()));
    assert_eq!(registry.decode("len", b"abc"), Ok(3));
    registry.register("len", |_bytes| Err("refused".to_string()));
    assert_eq!(registry.decode("len", b"abc"), Err("refused".to_string()));
}

#[test]
fn test_wildcard_topic_matching() {
    assert!(match_topic("sensor.*", "sensor.temperature"));
    assert!(match_topic("sensor.*", "sensor.humidity"));
    assert!(!match_topic("sensor.*", "sensor.temperature.celsius"));

    assert!(match_topic("sensor.#", "sensor.temperature"));
    assert!(match_topic("sensor.#", "sensor.temperature.celsius"));
    assert!(!match_topic("sensor.#", "actuator.motor"));

    assert!(match_topic("sensor.*.celsius", "sensor.temperature.celsius"));
    assert!(!match_topic("sensor.*.celsius", "sensor.temperature"));

    assert!(match_topic("*", "sensor"));
    assert!(!match_topic("*", "sensor.temperature"));
    assert!(match_topic("#", "sensor.temperature.celsius"));
}

#[test]
fn test_topic_laws_on_examples() {
    assert!(match_topic("a.b.c", "a.b.c"));
    assert!(!match_topic("a.b.c", "a.b.d"));
    assert!(match_topic("#", ""));
    assert!(match_topic("sensor.#", "sensor"));
}

#[test]
fn test_dijkstra_routing_tree() {
    let mut graph = GlobalGraph::new();

    graph.add_node(flow_node("A"));
    graph.add_node(flow_node("B"));
    graph.add_node(flow_node("C"));
    graph.add_node(flow_node("D"));

    // A - B (cost 1)
    // B - C (cost 1)
    // B - D (cost 1)
    graph.add_link(link("A", "B", 1));
    graph.add_link(link("B", "C", 1));
    graph.add_link(link("B", "D", 1));

    let subscribers = vec!["C".to_string(), "D".to_string()];

    let table = graph.compute_forwarding_table("A", &subscribers);

    assert_eq!(table.len(), 2);

    let a_targets = &lookup(&table, "A").unwrap().send_to;
    assert_eq!(a_targets.len(), 1);
    assert!(a_targets.contains(&"B".to_string()));

    let b_targets = &lookup(&table, "B").unwrap().send_to;
    assert_eq!(b_targets.len(), 2);
    assert!(b_targets.contains(&"C".to_string()));
    assert!(b_targets.contains(&"D".to_string()));
}

#[test]
fn test_routing_prefers_cheaper_path_and_avoids_aggregators() {
    let mut graph = GlobalGraph::new();
    graph.add_link(link("A", "B", 1));
    graph.add_link(link("B", "D", 1));
    graph.add_link(link("A", "C", 1));
    graph.add_link(link("C", "D", 5));
    let table = graph.compute_forwarding_table("A", &vec!["D".to_string()]);
    assert_eq!(lookup(&table, "A").unwrap().send_to, vec!["B".to_string()]);
    assert_eq!(lookup(&table, "B").unwrap().send_to, vec!["D".to_string()]);
    assert!(lookup(&table, "C").is_none());

    // B turns out to be an aggregator: relaying through it costs a penalty.
    graph.add_node(NodeDescriptor {
        node_id: "B".to_string(),
        role: NodeRole::Aggregator,
        capabilities: vec![],
        last_seen: 0,
    });
    let table = graph.compute_forwarding_table("A", &vec!["D".to_string()]);
    assert_eq!(lookup(&table, "A").unwrap().send_to, vec!["C".to_string()]);
    assert_eq!(lookup(&table, "C").unwrap().send_to, vec!["D".to_string()]);
}

#[test]
fn test_forwarding_table_edge_cases() {
    let mut graph = GlobalGraph::new();
    graph.add_link(link("A", "B", 1));
    // No subscribers, unknown source, unreachable subscriber.
    assert!(graph.compute_forwarding_table("A", &vec![]).is_empty());
    assert!(graph.compute_forwarding_table("Z", &vec!["B".to_string()]).is_empty());
    graph.add_node(flow_node("E"));
    assert!(graph.compute_forwarding_table("A", &vec!["E".to_string()]).is_empty());
    // Removing the link undoes it.
    graph.remove_link("A", "B");
    assert!(graph.compute_forwarding_table("A", &vec!["B".to_string()]).is_empty());
    assert_eq!(graph.num_nodes(), 3);
    assert_eq!(graph.num_edges(), 0);
}

#[test]
fn test_apply_update_and_remove_node() {
    let mut graph = GlobalGraph::new();
    graph.apply_update(TopologyUpdate {
        nodes_added: vec![flow_node("A"), flow_node("B")],
        nodes_removed: vec![],
        links_added: vec![link("A", "B", 2), link("B", "C", 3)],
        links_removed: vec![],
    });
    assert_eq!(graph.num_nodes(), 3);
    assert_eq!(graph.num_edges(), 4);
    let (descs, links) = graph.get_descriptors();
    assert_eq!(descs.len(), 2);
    assert_eq!(links.len(), 4);
    graph.remove_node("B");
    assert_eq!(graph.num_nodes(), 2);
    assert_eq!(graph.num_edges(), 0);
    let (descs, links) = graph.get_descriptors();
    assert_eq!(descs.len(), 1);
    assert_eq!(descs[0].node_id, "A");
    assert!(links.is_empty());
}

#[test]
fn test_xor_distance_and_leading_zeros() {
    let a = sha256("node_a");
    let b = sha256("node_b");

    let dist = xor_distance(&a, &b);
    let lz = leading_zeros(&dist);
    assert!(lz < 256);
}

#[test]
fn test_xor_distance_exact_values() {
    let a = [0u8; 32];
    let mut b = [0u8; 32];
    b[1] = 0b0001_0000;
    let d = xor_distance(&a, &b);
    assert_eq!(d, b);
    assert_eq!(leading_zeros(&d), 11);
    assert_eq!(leading_zeros(&xor_distance(&b, &b)), 256);
    assert_eq!(xor_distance(&a, &b), xor_distance(&b, &a));
}

#[test]
fn test_routing_table() {
    let mut table = RoutingTable::new("local".to_string());
    let addr1 = "127.0.0.1:8001".to_string();
    let addr2 = "127.0.0.1:8002".to_string();

    table.update("peer1".to_string(), addr1);
    table.update("peer2".to_string(), addr2);

    let closest = table.find_closest_nodes("peer1", 1);
    assert_eq!(closest.len(), 1);
    assert_eq!(closest[0].node_id, "peer1");
}

#[test]
fn test_routing_table_update_remove_and_self() {
    let mut table = RoutingTable::new("local".to_string());
    table.update("local".to_string(), "127.0.0.1:1".to_string());
    assert!(table.find_closest_nodes("local", 5).is_empty());
    table.update("peer1".to_string(), "127.0.0.1:8001".to_string());
    table.update("peer1".to_string(), "127.0.0.1:9001".to_string());
    let all = table.find_closest_nodes("peer1", 5);
    assert_eq!(all.len(), 1);
    // A known peer keeps its first address; it only becomes the most recent.
    assert_eq!(all[0].addr, "127.0.0.1:8001");
    table.remove("peer1");
    assert!(table.find_closest_nodes("peer1", 5).is_empty());
}

#[test]
fn test_exponential_backoff() {
    let mut eb = ExponentialBackoff::new(SECOND, 60 * SECOND);
    let b1 = eb.next_raw_backoff();
    assert!(b1 >= 900 * MILLI && b1 <= 1100 * MILLI);

    let b2 = eb.next_raw_backoff();
    assert!(b2 >= 1800 * MILLI && b2 <= 2200 * MILLI);

    eb.reset();
    let b3 = eb.next_raw_backoff();
    assert!(b3 >= 900 * MILLI && b3 <= 1100 * MILLI);
}

#[test]
fn test_exponential_backoff_exact_and_capped() {
    let mut eb = ExponentialBackoff::new(SECOND, 5 * SECOND);
    assert_eq!(eb.next_raw_backoff(), SECOND);
    assert_eq!(eb.next_raw_backoff(), 2 * SECOND);
    assert_eq!(eb.next_raw_backoff(), 4 * SECOND);
    assert_eq!(eb.next_raw_backoff(), 5 * SECOND);
    assert_eq!(eb.next_raw_backoff(), 5 * SECOND);
}

fn session(id: &str, creator: &str) -> Session {
    Session {
        session_id: id.to_string(),
        creator_node: creator.to_string(),
        flow_ids: vec![],
        created_at: 0,
        metadata: vec![],
        state_data: vec![],
        state_version: 0,
        state_timestamp: 0,
    }
}

#[test]
fn test_session_gc() {
    let mut sessions = vec![session("sess1", "node_a")];
    let now = 1_000 * SECOND;
    let node_last_seen = vec![("node_a".to_string(), now - 400 * SECOND)];

    let evicted = gc_inactive_sessions(&mut sessions, &node_last_seen, now, 300 * SECOND);
    assert_eq!(evicted.len(), 1);
    assert_eq!(evicted[0], "sess1");
    assert!(sessions.is_empty());
}

#[test]
fn test_session_gc_keeps_live_and_unknown_creators() {
    let now = 1_000 * SECOND;
    let mut sessions = vec![session("s1", "live"), session("s2", "dead"), session("s3", "unknown")];
    let seen = vec![("live".to_string(), now - 10 * SECOND), ("dead".to_string(), now - 301 * SECOND)];
    let evicted = gc_inactive_sessions(&mut sessions, &seen, now, 300 * SECOND);
    assert_eq!(evicted, vec!["s2".to_string()]);
    let kept: Vec<&str> = sessions.iter().map(|s| s.session_id.as_str()).collect();
    assert_eq!(kept, vec!["s1", "s3"]);
    // Running it again evicts nothing.
    assert!(gc_inactive_sessions(&mut sessions, &seen, now, 300 * SECOND).is_empty());
}

#[test]
fn test_write_and_read_frame() {
    // A Ping { sent_at: 42 } message: field 1, varint 42.
    let mut payload = Vec::new();
    prost::encoding::uint64::encode(1, &42u64, &mut payload);

    let buffer = encode_frame(&payload);

    let (bytes, used) = decode_frame(&buffer).unwrap();
    assert_eq!(used, buffer.len());

    let mut reader = &bytes[..];
    let (tag, _wire_type) = prost::encoding::decode_key(&mut reader).unwrap();
    assert_eq!(tag, 1);
    let decoded = prost::encoding::decode_varint(&mut reader).unwrap();
    assert_eq!(decoded, 42);
}

#[test]
fn test_frame_errors() {
    assert_eq!(encode_frame(b"ab"), vec![0, 0, 0, 2, b'a', b'b']);
    assert_eq!(decode_frame(&[0, 0]), Err(FrameError::Truncated));
    assert_eq!(decode_frame(&[0, 0, 0, 3, 1]), Err(FrameError::Truncated));
    assert_eq!(decode_frame(&[1, 0, 0, 1]), Err(FrameError::TooLarge(16_777_217)));
    assert_eq!(decode_length_prefixed(&[1, 0, 0, 0]), Err(FrameError::Truncated));
    assert_eq!(decode_length_prefixed(&[0, 0, 0, 0, 9]), Ok((vec![], 4)));
}

#[test]
fn test_rate_limiter_pause_resume() {
    let mut limiter = RateLimiterState::new(1000);
    limiter.pause();
    assert!(limiter.is_paused());
    limiter.resume();
    assert!(!limiter.is_paused());
}

#[test]
fn test_rate_limiter_settings_and_wait_steps() {
    let mut limiter = RateLimiterState::new(0);
    assert_eq!(limiter.bucket_rate(), u32::MAX);
    limiter.set_rate(500);
    assert_eq!(limiter.get_rate(), 500);
    assert_eq!(limiter.bucket_rate(), 500);

    let paused = RateLimiterState { max_rate: 500, paused: true };
    let running = RateLimiterState { max_rate: 500, paused: false };
    let unlimited = RateLimiterState { max_rate: 0, paused: false };
    assert_eq!(
        wait_step(WaitStage::Gate, 10, WaitEvent::Observed(paused)),
        (WaitStage::Gate, WaitAction::AwaitResume)
    );
    assert_eq!(
        wait_step(WaitStage::Gate, 10, WaitEvent::Observed(unlimited)),
        (WaitStage::Done, WaitAction::Proceed)
    );
    assert_eq!(
        wait_step(WaitStage::Gate, 0, WaitEvent::Observed(running)),
        (WaitStage::Done, WaitAction::Proceed)
    );
    assert_eq!(
        wait_step(WaitStage::Gate, 10, WaitEvent::Observed(running)),
        (WaitStage::Acquire, WaitAction::CheckTokens)
    );
    assert_eq!(
        wait_step(WaitStage::Acquire, 10, WaitEvent::Checked(TokenCheck::RetryAfter(7))),
        (WaitStage::Recheck, WaitAction::Sleep(7))
    );
    assert_eq!(
        wait_step(WaitStage::Recheck, 10, WaitEvent::Observed(paused)),
        (WaitStage::Recheck, WaitAction::AwaitResume)
    );
    assert_eq!(
        wait_step(WaitStage::Recheck, 10, WaitEvent::Observed(unlimited)),
        (WaitStage::Acquire, WaitAction::CheckTokens)
    );
    assert_eq!(
        wait_step(WaitStage::Acquire, 10, WaitEvent::Checked(TokenCheck::Granted)),
        (WaitStage::Done, WaitAction::Proceed)
    );
    assert_eq!(
        wait_step(WaitStage::Acquire, 10, WaitEvent::Checked(TokenCheck::InsufficientCapacity)),
        (WaitStage::Done, WaitAction::Proceed)
    );
}

#[test]
fn test_handshake_decisions() {
    let ok = PeerMessage::Handshake { protocol_version: 1, node_id: "peer".to_string() };
    match answer_handshake(&ok) {
        HandshakeReply::Accept { peer_id } => assert_eq!(peer_id, "peer"),
        other => panic!("unexpected {:?}", other),
    }
    let old = PeerMessage::Handshake { protocol_version: 2, node_id: "peer".to_string() };
    match answer_handshake(&old) {
        HandshakeReply::Reject { reason, error } => {
            assert_eq!(reason, "Unsupported protocol version");
            assert_eq!(error, "Protocol version mismatch");
        },
        other => panic!("unexpected {:?}", other),
    }
    match answer_handshake(&PeerMessage::Other) {
        HandshakeReply::Fail { error } => assert_eq!(error, "Expected FlowHandshake"),
        other => panic!("unexpected {:?}", other),
    }
    let accepted = PeerMessage::HandshakeAck { accepted: true, reject_reason: String::new() };
    assert_eq!(check_handshake_ack(&accepted), Ok(()));
    let refused = PeerMessage::HandshakeAck { accepted: false, reject_reason: "busy".to_string() };
    assert_eq!(check_handshake_ack(&refused), Err("Handshake rejected: busy".to_string()));
    assert_eq!(check_handshake_ack(&ok), Err("Expected HandshakeAck".to_string()));
}

#[test]
fn test_metadata_and_metric() {
    assert!(FlowConnectionMetadata::default().peer_node_id.is_none());
    assert_eq!(HopCountMetric.estimate_cost("a", "b", 7, 12345), 7);
}

#[test]
fn test_topic_handlers_pick_first_matching_pattern() {
    let mut handlers: TopicHandlers<u32> = TopicHandlers::new();
    handlers.subscribe("sensor.*", 1);
    handlers.subscribe("sensor.#", 2);
    handlers.subscribe("sensor.*", 3);
    assert_eq!(handlers.pattern_list(), vec!["sensor.*".to_string(), "sensor.#".to_string()]);
    assert_eq!(handlers.handler_for("sensor.temp"), Some(&3));
    assert_eq!(handlers.handler_for("sensor.temp.c"), Some(&2));
    assert_eq!(handlers.handler_for("motor"), None);
    let patterns = vec!["a.*".to_string(), "#".to_string()];
    assert_eq!(first_matching_pattern(&patterns, "b"), Some(1));
    assert_eq!(first_matching_pattern(&vec![], "b"), None);
}

fn entry(pattern: &str, subscribe: bool) -> SubscriptionEntry {
    SubscriptionEntry { flow_id: String::new(), pattern: pattern.to_string(), subscribe }
}

#[test]
fn test_subscription_update_and_publish_plan() {
    let caps = subscription_capabilities(&vec![entry("x.*", true), entry("y", false), entry("x.*", true)]);
    assert_eq!(caps, vec![("sub:x.*".to_string(), String::new())]);
    let d = subscription_descriptor("B".to_string(), &vec![entry("sensor.#", true)], 99);
    assert_eq!(d.node_id, "B");
    assert_eq!(d.last_seen, 99);
    assert_eq!(d.role, NodeRole::Flow);

    let mut graph = GlobalGraph::new();
    graph.add_link(link("A", "B", 1));
    graph.add_link(link("B", "C", 1));
    let pong = handle_control_message(
        &mut graph,
        ControlMessage::SubscriptionUpdate { node_id: "C".to_string(), entries: vec![entry("sensor.#", true)] },
        5,
    );
    assert_eq!(pong, None);
    assert_eq!(subscribers_of(&graph, "sensor.t"), vec!["C".to_string()]);
    assert!(subscribers_of(&graph, "motor").is_empty());

    let plan = plan_publish(&graph, "A", &vec!["sensor.*".to_string()], "sensor.t");
    assert!(plan.deliver_locally);
    let table = plan.forwarding_table.unwrap();
    assert_eq!(lookup(&table, "A").unwrap().send_to, vec!["B".to_string()]);
    assert_eq!(lookup(&table, "B").unwrap().send_to, vec!["C".to_string()]);

    let plan = plan_publish(&graph, "A", &vec![], "motor");
    assert!(!plan.deliver_locally);
    assert!(plan.forwarding_table.is_none());

    assert_eq!(handle_control_message(&mut graph, ControlMessage::Ping { sent_at: 17 }, 5), Some(17));
    assert_eq!(handle_control_message(&mut graph, ControlMessage::Other, 5), None);
    let removal = TopologyUpdate { nodes_added: vec![], nodes_removed: vec!["C".to_string()], links_added: vec![], links_removed: vec![] };
    assert_eq!(handle_control_message(&mut graph, ControlMessage::TopologyUpdate(removal), 5), None);
    assert!(subscribers_of(&graph, "sensor.t").is_empty());
}

#[test]
fn test_alpn_default() {
    assert_eq!(alpn_or_default(vec![]), vec![b"stric-flow".to_vec()]);
    assert_eq!(alpn_or_default(vec![b"x".to_vec()]), vec![b"x".to_vec()]);
}

#[test]
fn test_one_link_per_direction() {
    let mut graph = GlobalGraph::new();
    graph.add_link(link("A", "B", 1));
    graph.add_link(link("B", "A", 7));
    assert_eq!(graph.num_nodes(), 2);
    assert_eq!(graph.num_edges(), 2);
    let (_, links) = graph.get_descriptors();
    assert!(links.iter().all(|l| l.hop_cost == 7));
}

#[test]
fn test_descriptors_rebuild_graph() {
    let mut graph = GlobalGraph::new();
    graph.add_node(NodeDescriptor {
        node_id: "A".to_string(),
        role: NodeRole::Aggregator,
        capabilities: vec![("sub:x".to_string(), String::new())],
        last_seen: 9,
    });
    graph.add_link(link("A", "B", 3));
    graph.add_link(link("B", "C", 4));
    let (nodes, links) = graph.get_descriptors();
    assert_eq!(links.len(), 4);
    let mut rebuilt = GlobalGraph::new();
    rebuilt.apply_update(TopologyUpdate { nodes_added: nodes, nodes_removed: vec![], links_added: links, links_removed: vec![] });
    assert_eq!(rebuilt.num_nodes(), graph.num_nodes());
    assert_eq!(rebuilt.num_edges(), graph.num_edges());
    let (n1, l1) = graph.get_descriptors();
    let (n2, l2) = rebuilt.get_descriptors();
    let key = |l: &LinkDescriptor| (l.node_a.clone(), l.node_b.clone(), l.hop_cost, l.rtt_micros);
    let mut k1: Vec<_> = l1.iter().map(key).collect();
    let mut k2: Vec<_> = l2.iter().map(key).collect();
    k1.sort();
    k2.sort();
    assert_eq!(k1, k2);
    assert_eq!(n1.len(), 1);
    assert_eq!(n2.len(), 1);
    assert_eq!(n2[0].node_id, "A");
    assert_eq!(n2[0].role, NodeRole::Aggregator);
    assert_eq!(n2[0].last_seen, 9);
    // every link has its reverse with the same weight
    for l in &k1 {
        assert!(k1.contains(&(l.1.clone(), l.0.clone(), l.2, l.3)));
    }
}

#[test]
fn test_closest_nodes_are_distinct_and_remove_undoes_update() {
    let mut table = RoutingTable::new("local".to_string());
    for i in 0..10 {
        table.update(format!("peer{}", i), format!("127.0.0.1:{}", 8000 + i));
    }
    table.update("peer3".to_string(), "127.0.0.1:1".to_string());
    let all = table.find_closest_nodes("peer3", 50);
    assert_eq!(all.len(), 10);
    assert_eq!(all[0].node_id, "peer3");
    for a in 0..all.len() {
        for c in (a + 1)..all.len() {
            assert_ne!(all[a].node_id, all[c].node_id);
        }
    }
    let before: Vec<String> = table.find_closest_nodes("x", 50).iter().map(|n| n.node_id.clone()).collect();
    table.update("newcomer".to_string(), "127.0.0.1:2".to_string());
    table.remove("newcomer");
    let after: Vec<String> = table.find_closest_nodes("x", 50).iter().map(|n| n.node_id.clone()).collect();
    assert_eq!(before, after);
}

#[test]
fn test_session_gc_distinct_ids() {
    let now = 1_000 * SECOND;
    let mut sessions = vec![session("s1", "dead"), session("s2", "dead"), session("s3", "live")];
    let seen = vec![("dead".to_string(), 0), ("live".to_string(), now)];
    let evicted = gc_inactive_sessions(&mut sessions, &seen, now, 300 * SECOND);
    assert_eq!(evicted, vec!["s1".to_string(), "s2".to_string()]);
    assert_eq!(sessions.len(), 1);
}

#[test]
fn test_leading_zeros_example_and_all_zero() {
    let mut d = [0u8; 32];
    d[2] = 0x10;
    assert_eq!(leading_zeros(&d), 19);
    assert_eq!(leading_zeros(&[0u8; 32]), 256);
    let mut last = [0u8; 32];
    last[31] = 1;
    assert_eq!(leading_zeros(&last), 255);
}

fn dist(target: &str, id: &str) -> [u8; 32] {
    xor_distance(&sha256(target), &sha256(id))
}

#[test]
fn test_closest_nodes_in_distance_order() {
    let mut table = RoutingTable::new("local".to_string());
    let ids: Vec<String> = (0..12).map(|i| format!("node{}", i)).collect();
    for id in &ids {
        table.update(id.clone(), "127.0.0.1:1".to_string());
    }
    let all = table.find_closest_nodes("target", 50);
    let closest = table.find_closest_nodes("target", 4);
    assert_eq!(closest.len(), 4);
    // closest first, never farther before nearer
    for a in 0..all.len() {
        for c in (a + 1)..all.len() {
            assert!(dist("target", &all[a].node_id) <= dist("target", &all[c].node_id));
        }
    }
    // no stored node left out is closer than one taken
    for n in &all {
        if !closest.iter().any(|m| m.node_id == n.node_id) {
            for m in &closest {
                assert!(dist("target", &m.node_id) <= dist("target", &n.node_id));
            }
        }
    }
    let firsts: Vec<String> = all.iter().take(4).map(|n| n.node_id.clone()).collect();
    let taken: Vec<String> = closest.iter().map(|n| n.node_id.clone()).collect();
    assert_eq!(firsts, taken);
}

#[test]
fn test_forwarding_table_empty_iff_no_reachable_subscriber() {
    let mut graph = GlobalGraph::new();
    graph.add_link(link("A", "B", 1));
    graph.add_node(flow_node("E"));
    // only the source itself subscribes: nothing to forward
    assert!(graph.compute_forwarding_table("A", &vec!["A".to_string()]).is_empty());
    // an unreachable and an unknown subscriber: nothing to forward
    assert!(graph.compute_forwarding_table("A", &vec!["E".to_string(), "Q".to_string()]).is_empty());
    // one reachable subscriber among them: a table
    let table = graph.compute_forwarding_table("A", &vec!["E".to_string(), "B".to_string()]);
    assert_eq!(table.len(), 1);
    assert_eq!(lookup(&table, "A").unwrap().send_to, vec!["B".to_string()]);
}

#[test]
fn test_forwarding_chain_is_shortest_tree() {
    // A-B-C-D costs 3 along the chain; A-D directly costs 10.
    let mut graph = GlobalGraph::new();
    graph.add_link(link("A", "B", 1));
    graph.add_link(link("B", "C", 1));
    graph.add_link(link("C", "D", 1));
    graph.add_link(link("A", "D", 10));
    graph.add_link(link("C", "X", 1));
    let table = graph.compute_forwarding_table("A", &vec!["D".to_string(), "B".to_string()]);
    // following send_to from the source reaches D along A-B-C-D
    assert_eq!(lookup(&table, "A").unwrap().send_to, vec!["B".to_string()]);
    assert_eq!(lookup(&table, "B").unwrap().send_to, vec!["C".to_string()]);
    assert_eq!(lookup(&table, "C").unwrap().send_to, vec!["D".to_string()]);
    // no dead branch towards X, nothing relayed by D, the source never a target
    assert!(lookup(&table, "D").is_none());
    assert!(lookup(&table, "X").is_none());
    assert_eq!(table.len(), 3);
    for (_, t) in &table {
        assert!(!t.send_to.contains(&"A".to_string()));
    }
    // every target has exactly one relay
    let mut targets: Vec<String> = table.iter().flat_map(|(_, t)| t.send_to.clone()).collect();
    let n = targets.len();
    targets.sort();
    targets.dedup();
    assert_eq!(targets.len(), n);
}

#[test]
fn test_add_link_counts_only_new_nodes_and_directions() {
    let mut graph = GlobalGraph::new();
    graph.add_link(link("A", "B", 1));
    assert_eq!((graph.num_nodes(), graph.num_edges()), (2, 2));
    // both endpoints known, both directions present: nothing new
    graph.add_link(link("B", "A", 7));
    assert_eq!((graph.num_nodes(), graph.num_edges()), (2, 2));
    // a self link adds one direction and no node
    graph.add_link(link("A", "A", 1));
    assert_eq!((graph.num_nodes(), graph.num_edges()), (2, 3));
    // one new endpoint
    graph.add_link(link("A", "C", 1));
    assert_eq!((graph.num_nodes(), graph.num_edges()), (3, 5));
    assert!(graph.has_node("C"));
    assert!(!graph.has_node("D"));
}

#[test]
fn test_update_has_room_for_small_batches() {
    let mut graph = GlobalGraph::new();
    let update = TopologyUpdate {
        nodes_added: vec![flow_node("A")],
        nodes_removed: vec!["Z".to_string()],
        links_added: vec![link("A", "B", 1)],
        links_removed: vec![],
    };
    assert!(graph.update_has_room(&update));
    graph.apply_update(update);
    assert_eq!((graph.num_nodes(), graph.num_edges()), (2, 2));
    assert!(graph.has_node("B"));
}
