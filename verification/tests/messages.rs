use comm::address::{Address, Addressable};
use comm::hex::HexError;
use comm::messages::incoming::{copy_bytes, parse_envelope, parse_envelope_at, Message, Query, Response};
use comm::messages::outgoing::{
    copy_transports, create_find_node_query, create_find_node_response, create_packet_query,
    create_packet_response, create_ping_query, create_ping_response,
};
use comm::messages::protobufs::{Envelope, Envelope_Type, FindNodeQuery, Payload, PingQuery};
use comm::messages::protobufs;
use comm::node::{DeserializeError, Node, Serialize, Transport, UdpTransport};
use comm::timestamp::Timestamp;

fn origin() -> Node {
    Node::new_at(
        Address::for_content("origin"),
        vec![Transport::Udp(UdpTransport::new([127, 0, 0, 1], 6667))],
        Timestamp::new(0, 0),
    )
}

#[test]
fn test_create_ping_query_and_parse_it() {
    let envelope = create_ping_query(9, &origin());
    assert_eq!(envelope.get_transaction_id(), 9);
    assert_eq!(envelope.get_message_type(), Envelope_Type::PING_QUERY);
    assert_eq!(envelope.payload, Payload::PingQuery(PingQuery { origin: origin().serialize() }));
    let now = Timestamp::new(50, 0);
    match parse_envelope_at(&envelope, now).unwrap() {
        Message::Query(transaction_id, sender, Query::Ping) => {
            assert_eq!(transaction_id, 9);
            assert_eq!(sender.address(), Address::for_content("origin"));
            assert_eq!(sender.transports(), origin().transports());
            assert_eq!(sender.last_seen(), now);
        }
        _ => panic!("not a ping query"),
    }
}

#[test]
fn test_create_find_node_query_and_parse_it() {
    let target = Address::for_content("target");
    let envelope = create_find_node_query(3, &origin(), &target);
    assert_eq!(envelope.get_message_type(), Envelope_Type::FIND_NODE_QUERY);
    match &envelope.payload {
        Payload::FindNodeQuery(query) => assert_eq!(query.target, target.to_str()),
        _ => panic!("not a search"),
    }
    match parse_envelope(&envelope).unwrap() {
        Message::Query(3, _, Query::FindNode(found)) => assert_eq!(found, target),
        _ => panic!("not a search"),
    }
}

#[test]
fn test_create_find_node_response_and_parse_it() {
    let first = Node::new_at(Address::for_content("first"), vec![], Timestamp::new(0, 0));
    let second = origin();
    let envelope = create_find_node_response(4, &origin(), &vec![&first, &second]);
    assert_eq!(envelope.get_message_type(), Envelope_Type::FIND_NODE_RESPONSE);
    match parse_envelope(&envelope).unwrap() {
        Message::Response(4, sender, Response::FindNode(nodes)) => {
            assert_eq!(sender.address(), Address::for_content("origin"));
            let addresses: Vec<Address> = nodes.iter().map(|node| node.address()).collect();
            assert_eq!(addresses, vec![Address::for_content("first"), Address::for_content("origin")]);
            assert_eq!(nodes[1].transports(), origin().transports());
        }
        _ => panic!("not an answer to a search"),
    }
}

#[test]
fn test_create_packet_messages_and_parse_them() {
    let envelope = create_packet_query(5, &origin(), vec![1, 2, 3]);
    assert_eq!(envelope.get_message_type(), Envelope_Type::PACKET_QUERY);
    match parse_envelope(&envelope).unwrap() {
        Message::Query(5, _, Query::Packet(payload)) => assert_eq!(payload, vec![1, 2, 3]),
        _ => panic!("not a packet"),
    }
    let envelope = create_packet_response(6, &origin());
    assert_eq!(envelope.get_message_type(), Envelope_Type::PACKET_RESPONSE);
    assert!(matches!(parse_envelope(&envelope).unwrap(), Message::Response(6, _, Response::Packet)));
    let envelope = create_ping_response(7, &origin());
    assert_eq!(envelope.get_message_type(), Envelope_Type::PING_RESPONSE);
    assert!(matches!(parse_envelope(&envelope).unwrap(), Message::Response(7, _, Response::Ping)));
}

#[test]
fn test_parse_rejects_a_target_that_is_not_hexadecimal() {
    let envelope = Envelope {
        transaction_id: 1,
        payload: Payload::FindNodeQuery(FindNodeQuery {
            origin: origin().serialize(),
            target: "0g".to_string(),
        }),
    };
    assert_eq!(
        parse_envelope(&envelope).err(),
        Some(DeserializeError::InvalidAddress(HexError::InvalidCharacter('g', 1)))
    );
}

#[test]
fn test_parse_rejects_the_first_node_that_is_not_in_order() {
    let good = origin().serialize();
    let odd = protobufs::Node { id: "abc".to_string(), transports: vec![] };
    let short = protobufs::Node {
        id: "ab".to_string(),
        transports: vec![protobufs::Transport {
            transport_type: protobufs::Transport_Type::UDP,
            udp_transport: protobufs::UdpTransport { ip_address: vec![], port: 1 },
        }],
    };
    let envelope = Envelope {
        transaction_id: 1,
        payload: Payload::FindNodeResponse(protobufs::FindNodeResponse {
            origin: good.clone(),
            nodes: vec![good.clone(), short.clone(), odd.clone()],
        }),
    };
    assert_eq!(parse_envelope(&envelope).err(), Some(DeserializeError::InvalidTransport));
    let envelope = Envelope {
        transaction_id: 1,
        payload: Payload::FindNodeResponse(protobufs::FindNodeResponse {
            origin: odd,
            nodes: vec![short],
        }),
    };
    assert_eq!(
        parse_envelope(&envelope).err(),
        Some(DeserializeError::InvalidAddress(HexError::InvalidLength))
    );
}

#[test]
fn test_copies() {
    assert_eq!(copy_bytes(&vec![1, 2, 3]), vec![1, 2, 3]);
    let transports = vec![Transport::Udp(UdpTransport::new([1, 2, 3, 4], 5))];
    assert_eq!(copy_transports(&transports), transports);
}
