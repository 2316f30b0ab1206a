use comm::address::{Address, Addressable};
use comm::messages::incoming::{Message, Query, Response};
use comm::messages::outgoing::{create_find_node_response, create_ping_query, Outgoing};
use comm::messages::protobufs::{Envelope, Envelope_Type, Payload, PingQuery};
use comm::messages::protobufs;
use comm::network::{Effect, Event, Network, ScheduledTask, Status, BUCKET_SIZE, STEP_DELAY_MS};
use comm::node::{DeserializeError, Node, Serialize, Transport, UdpTransport};
use comm::routing_table::NodeHandle;
use comm::timestamp::Timestamp;

fn at(seconds: i64) -> Timestamp {
    Timestamp::new(seconds, 0)
}

fn udp(last: u8) -> Transport {
    Transport::Udp(UdpTransport::new([10, 0, 0, last], 6000 + last as u16))
}

fn peer(name: &str, last: u8) -> Node {
    Node::new_at(Address::for_content(name), vec![udp(last)], at(0))
}

fn network_with_router() -> Network {
    let router = Node::new_at(Address::null(), vec![udp(1)], at(0));
    Network::new(Address::for_content("self"), vec![udp(100)], vec![router], at(0))
}

fn sent(effect: &Effect) -> &Outgoing {
    match effect {
        Effect::Send(message) => message,
        _ => panic!("not a message"),
    }
}

fn kinds(effects: &[Effect]) -> Vec<String> {
    effects
        .iter()
        .map(|effect| match effect {
            Effect::Send(message) => format!(
                "send {:?} {}",
                message.envelope.get_message_type(),
                message.envelope.transaction_id
            ),
            Effect::Broadcast(event) => format!("broadcast {:?}", event),
            Effect::Schedule { task, delay_ms, transaction_id } => {
                format!("schedule {:?} {} {:?}", task, delay_ms, transaction_id)
            }
            Effect::ClearTimeout(transaction_id) => format!("clear {}", transaction_id),
            Effect::Shutdown => "shutdown".to_string(),
        })
        .collect()
}

#[test]
fn test_new_network_is_idle_and_knows_only_its_routers() {
    let network = network_with_router();
    assert_eq!(network.status(), Status::Idle);
    assert_eq!(network.self_node().address(), Address::for_content("self"));
    assert_eq!(network.self_node().transports(), &vec![udp(100)]);
    assert_eq!(network.routing_table().buckets().len(), 1);
    assert_eq!(network.routing_table().buckets()[0].capacity(), BUCKET_SIZE);
    assert_eq!(network.routing_table().buckets()[0].get_nodes().len(), 0);
    assert_eq!(network.routing_table().routers().len(), 1);
}

#[test]
fn test_start_bootstrap_asks_the_router_for_our_own_address() {
    let mut network = network_with_router();
    let mut effects = Vec::new();
    network.start_bootstrap(&mut effects, at(10));
    assert_eq!(network.status(), Status::Bootstrapping);
    assert_eq!(
        kinds(&effects),
        vec![
            "send FIND_NODE_QUERY 1",
            "schedule ContinueBootstrap 1000 Some(1)",
            "broadcast Started"
        ]
    );
    let query = sent(&effects[0]);
    assert_eq!(query.transports, vec![udp(1)]);
    match &query.envelope.payload {
        Payload::FindNodeQuery(query) => {
            assert_eq!(query.target, Address::for_content("self").to_str());
            assert_eq!(query.origin, network.self_node().serialize());
        }
        _ => panic!("not a search"),
    }
    assert_eq!(network.routing_table().node(NodeHandle::Router { index: 0 }).pending_query_count(), 1);
    assert_eq!(STEP_DELAY_MS, 1000);
}

#[test]
fn test_ping_is_answered_and_its_sender_learned() {
    let mut network = network_with_router();
    let mut effects = Vec::new();
    let message = Message::Query(77, peer("asker", 2), Query::Ping);
    network.handle_incoming(message, &mut effects, at(20));
    assert_eq!(kinds(&effects), vec!["send PING_RESPONSE 77"]);
    assert_eq!(sent(&effects[0]).transports, vec![udp(2)]);
    let table = network.routing_table();
    let nodes = table.buckets()[0].get_nodes();
    assert_eq!(nodes.len(), 1);
    assert_eq!(nodes[0].address(), Address::for_content("asker"));
    assert_eq!(nodes[0].last_seen(), at(20));
    assert!(!nodes[0].has_ever_responded());
}

#[test]
fn test_packet_is_announced_and_confirmed() {
    let mut network = network_with_router();
    let mut effects = Vec::new();
    let message = Message::Query(5, peer("sender", 2), Query::Packet(vec![9, 8, 7]));
    network.handle_incoming(message, &mut effects, at(20));
    assert_eq!(effects.len(), 2);
    match &effects[0] {
        Effect::Broadcast(Event::ReceivedPacket(from, payload)) => {
            assert_eq!(*from, Address::for_content("sender"));
            assert_eq!(payload, &vec![9, 8, 7]);
        }
        _ => panic!("not announced"),
    }
    assert_eq!(sent(&effects[1]).envelope.get_message_type(), Envelope_Type::PACKET_RESPONSE);
    assert_eq!(sent(&effects[1]).envelope.transaction_id, 5);
    assert_eq!(sent(&effects[1]).transports, vec![udp(2)]);
}

#[test]
fn test_search_is_answered_with_the_nearest_nodes_nearest_first() {
    let mut network = Network::new(
        Address::from_str("0000000000000000000000000000000000000000").unwrap(),
        vec![],
        vec![],
        at(0),
    );
    let mut effects = Vec::new();
    let known = [
        "0000000000000000000000000000000000000001",
        "7ffffffffffffffffffffffffffffffffffffffe",
        "ffffffffffffffffffffffffffffffffffffffff",
    ];
    for text in known {
        let node = Node::new_at(Address::from_str(text).unwrap(), vec![], at(0));
        network.insert_node(node, &mut effects, at(1)).unwrap();
    }
    assert!(effects.is_empty());
    let target = Address::from_str("fffffffffffffffffffffffffffffffffffffffd").unwrap();
    network.handle_incoming(Message::Query(8, peer("asker", 2), Query::FindNode(target)), &mut effects, at(2));
    assert_eq!(kinds(&effects), vec!["send FIND_NODE_RESPONSE 8"]);
    match &sent(&effects[0]).envelope.payload {
        Payload::FindNodeResponse(response) => {
            let ids: Vec<&str> = response.nodes.iter().map(|node| node.id.as_str()).collect();
            assert_eq!(ids, vec![known[2], known[1], known[0]]);
            assert_eq!(response.origin, network.self_node().serialize());
        }
        _ => panic!("not an answer"),
    }
    assert_eq!(network.routing_table().buckets()[0].get_nodes().len(), 4);
}

#[test]
fn test_response_to_the_bootstrap_that_names_new_nodes_continues_it() {
    let mut network = network_with_router();
    let mut effects = Vec::new();
    network.start_bootstrap(&mut effects, at(10));
    effects.clear();
    let response = Message::Response(1, peer("router", 1), Response::FindNode(vec![peer("a", 3), peer("b", 4)]));
    network.handle_incoming(response, &mut effects, at(11));
    assert_eq!(network.status(), Status::Bootstrapping);
    let listed = kinds(&effects);
    assert_eq!(listed[0], "clear 1");
    assert_eq!(listed.last().unwrap(), "schedule ContinueBootstrap 1000 Some(2)");
    // the search goes to the three nodes that are known now, and to the router
    assert_eq!(listed.len(), 6);
    for effect in &effects[1..5] {
        assert_eq!(sent(effect).envelope.get_message_type(), Envelope_Type::FIND_NODE_QUERY);
        assert_eq!(sent(effect).envelope.transaction_id, 2);
    }
    assert_eq!(sent(&effects[4]).transports, vec![udp(1)]);
    assert_eq!(network.routing_table().buckets()[0].get_nodes().len(), 3);
}

#[test]
fn test_response_to_the_bootstrap_that_names_nothing_new_ends_it() {
    let mut network = network_with_router();
    let mut effects = Vec::new();
    network.handle_incoming(Message::Query(50, peer("router", 1), Query::Ping), &mut effects, at(9));
    network.start_bootstrap(&mut effects, at(10));
    effects.clear();
    let response = Message::Response(1, peer("router", 1), Response::FindNode(vec![peer("router", 1)]));
    network.handle_incoming(response, &mut effects, at(11));
    assert_eq!(network.status(), Status::Idle);
    let listed = kinds(&effects);
    assert_eq!(
        listed,
        vec![
            "clear 1",
            // the health check pings the nearest node; it has answered and is not questionable
            "send PING_QUERY 2",
            "schedule ContinueHealthCheck 1000 Some(2)",
            // nothing is stale: the refresh only sets its timer
            "schedule ContinueRefresh 1000 None"
        ]
    );
    let node = &network.routing_table().buckets()[0].get_nodes()[0];
    assert!(node.has_ever_responded());
    assert_eq!(node.last_seen(), at(11));
    assert_eq!(node.pending_query_count(), 1);
}

#[test]
fn test_response_in_an_unknown_transaction_only_teaches() {
    let mut network = network_with_router();
    let mut effects = Vec::new();
    let response = Message::Response(40, peer("stranger", 5), Response::FindNode(vec![peer("a", 3)]));
    network.handle_incoming(response, &mut effects, at(11));
    assert!(effects.is_empty());
    assert_eq!(network.status(), Status::Idle);
    assert_eq!(network.routing_table().buckets()[0].get_nodes().len(), 2);
    let response = Message::Response(41, peer("stranger", 5), Response::Ping);
    network.handle_incoming(response, &mut effects, at(12));
    assert!(effects.is_empty());
    let table = network.routing_table();
    let handle = table.handle_for(&Address::for_content("stranger")).unwrap();
    assert_eq!(table.node(handle).last_seen(), at(12));
    assert!(!table.node(handle).has_ever_responded());
}

#[test]
fn test_health_check_pings_the_nearest_and_the_questionable() {
    let mut network = network_with_router();
    let mut effects = Vec::new();
    for (name, last) in [("a", 3), ("b", 4)] {
        network.insert_node(peer(name, last), &mut effects, at(1)).unwrap();
    }
    let transaction_id = network.health_check(&mut effects, at(2));
    assert_eq!(transaction_id, 1);
    assert_eq!(kinds(&effects), vec!["send PING_QUERY 1", "send PING_QUERY 1", "send PING_QUERY 1"]);
    let nearest = network.routing_table().nearest_at(at(2))[0];
    assert_eq!(sent(&effects[0]).transports, *network.routing_table().node(nearest).transports());
    assert_eq!(sent(&effects[1]).transports, vec![udp(4)]);
    assert_eq!(sent(&effects[2]).transports, vec![udp(3)]);
    for node in network.routing_table().buckets()[0].get_nodes() {
        assert_eq!(node.pending_query_count(), 1);
    }
}

#[test]
fn test_send_packet_goes_to_the_nearest_live_nodes_each_in_its_own_transaction() {
    let mut network = network_with_router();
    let mut effects = Vec::new();
    network.send_packet(Address::for_content("nobody"), vec![1], &mut effects, at(1));
    assert!(effects.is_empty());
    for (name, last) in [("a", 3), ("b", 4)] {
        network.insert_node(peer(name, last), &mut effects, at(1)).unwrap();
    }
    network.send_packet(Address::for_content("a"), vec![1, 2], &mut effects, at(2));
    assert_eq!(kinds(&effects), vec!["send PACKET_QUERY 1", "send PACKET_QUERY 2"]);
    assert_eq!(sent(&effects[0]).transports, vec![udp(3)]);
    assert_eq!(sent(&effects[1]).transports, vec![udp(4)]);
    match &sent(&effects[0]).envelope.payload {
        Payload::PacketQuery(query) => assert_eq!(query.payload, vec![1, 2]),
        _ => panic!("not a packet"),
    }
}

#[test]
fn test_refresh_asks_for_an_address_in_a_stale_bucket() {
    let mut network = network_with_router();
    let mut effects = Vec::new();
    let opened = network.refresh_bucket(&mut effects, at(10));
    assert_eq!(opened, Some(1));
    assert_eq!(kinds(&effects), vec!["send FIND_NODE_QUERY 1"]);
    assert!(network.address_to_find_for_refresh(at(10)).is_some());
    network.insert_node(peer("a", 3), &mut effects, at(20)).unwrap();
    effects.clear();
    assert_eq!(network.address_to_find_for_refresh(at(21)), None);
    assert_eq!(network.refresh_bucket(&mut effects, at(21)), None);
    assert!(effects.is_empty());
    network.timeout(ScheduledTask::ContinueRefresh, &mut effects, at(21));
    assert_eq!(kinds(&effects), vec!["schedule ContinueRefresh 1000 None"]);
    effects.clear();
    network.timeout(ScheduledTask::ContinueRefresh, &mut effects, at(20 + 15 * 60 + 1));
    assert_eq!(
        kinds(&effects),
        vec!["send FIND_NODE_QUERY 2", "send FIND_NODE_QUERY 2", "schedule ContinueRefresh 1000 Some(2)"]
    );
}

#[test]
fn test_timers_take_the_steps_again() {
    let mut network = network_with_router();
    let mut effects = Vec::new();
    network.timeout(ScheduledTask::ContinueBootstrap, &mut effects, at(5));
    network.timeout(ScheduledTask::ContinueHealthCheck, &mut effects, at(6));
    assert_eq!(
        kinds(&effects),
        vec![
            "send FIND_NODE_QUERY 1",
            "schedule ContinueBootstrap 1000 Some(1)",
            "send PING_QUERY 2",
            "schedule ContinueHealthCheck 1000 Some(2)"
        ]
    );
    // a response to the health check ends nothing
    effects.clear();
    network.handle_incoming(Message::Response(2, peer("router", 1), Response::FindNode(vec![])), &mut effects, at(7));
    assert!(effects.is_empty());
}

#[test]
fn test_shutdown() {
    let mut network = network_with_router();
    let mut effects = Vec::new();
    network.shutdown(&mut effects);
    assert_eq!(kinds(&effects), vec!["shutdown", "broadcast Shutdown"]);
}

#[test]
fn test_envelope_that_is_not_in_order_is_dropped() {
    let mut network = network_with_router();
    let mut effects = Vec::new();
    let envelope = Envelope {
        transaction_id: 1,
        payload: Payload::PingQuery(PingQuery {
            origin: protobufs::Node { id: "not hexadecimal".to_string(), transports: vec![] },
        }),
    };
    let outcome = network.handle_envelope(&envelope, &mut effects, at(1));
    assert!(matches!(outcome, Err(DeserializeError::InvalidAddress(_))));
    assert!(effects.is_empty());
    assert_eq!(network.routing_table().buckets()[0].get_nodes().len(), 0);
    let envelope = create_ping_query(3, &peer("asker", 2));
    assert_eq!(network.handle_envelope(&envelope, &mut effects, at(2)), Ok(()));
    assert_eq!(kinds(&effects), vec!["send PING_RESPONSE 3"]);
    let envelope = create_find_node_response(4, &peer("asker", 2), &vec![&peer("other", 7)]);
    assert_eq!(network.handle_envelope(&envelope, &mut effects, at(3)), Ok(()));
    assert_eq!(network.routing_table().buckets()[0].get_nodes().len(), 2);
}

#[test]
fn test_discarded_node_has_the_questionable_nodes_of_its_bucket_pinged() {
    let mut network = Network::new(
        Address::from_str("0000000000000000000000000000000000000000").unwrap(),
        vec![],
        vec![],
        at(0),
    );
    let mut effects = Vec::new();
    let mut last = 0u8;
    let mut discarded = 0;
    for i in 0..40 {
        let address = Address::for_content(&format!("node {}", i));
        if address.as_numeric().high() < 0x8000_0000 {
            continue;
        }
        last += 1;
        let node = Node::new_at(address, vec![udp(last)], at(0));
        let before = effects.len();
        match network.insert_node(node, &mut effects, at(1)).unwrap() {
            comm::routing_table::InsertOutcome::Discarded => {
                discarded += 1;
                assert_eq!(effects.len(), before + BUCKET_SIZE);
            }
            _ => assert_eq!(effects.len(), before),
        }
    }
    assert!(discarded > 0);
    assert_eq!(effects.len(), discarded * BUCKET_SIZE);
    let ids: Vec<u32> = effects.iter().map(|effect| sent(effect).envelope.transaction_id).collect();
    assert_eq!(ids, (1..=(discarded * BUCKET_SIZE) as u32).collect::<Vec<u32>>());
    assert_eq!(sent(&effects[0]).envelope.get_message_type(), Envelope_Type::PING_QUERY);
}

#[test]
fn test_refresh_target_with_a_generator_is_owed_where_a_bucket_is_stale() {
    let mut generator = rand::StdRng::new().expect("no randomness");
    let mut network = network_with_router();
    let mut effects = Vec::new();
    for _ in 0..20 {
        let target = network.address_to_find_for_refresh_with(&mut generator, at(10)).unwrap();
        assert!(network.routing_table().buckets()[0].covers(&target));
    }
    network.insert_node(peer("a", 3), &mut effects, at(20)).unwrap();
    assert_eq!(network.address_to_find_for_refresh_with(&mut generator, at(21)), None);
    assert!(network.address_to_find_for_refresh_with(&mut generator, at(20 + 15 * 60 + 1)).is_some());
}
