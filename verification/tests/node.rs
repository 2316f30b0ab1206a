use comm::address::{Address, Addressable};
use comm::hex::HexError;
use comm::messages::protobufs;
use comm::node::{
    DeserializeError, IpAddress, Node, Serialize, Status, Transport, UdpTransport,
    FAILED_TO_RESPOND_THRESHOLD, MINUTES_UNTIL_QUESTIONABLE,
};
use comm::timestamp::Timestamp;

fn at(seconds: i64) -> Timestamp {
    Timestamp::new(seconds, 0)
}

fn udp(ip: [u8; 4], port: u16) -> Transport {
    Transport::Udp(UdpTransport::new(ip, port))
}

#[test]
fn test_received_response() {
    let address = Address::for_content("some string");
    let transports = Vec::new();
    let mut node = Node::new(address, transports);

    // When it's not expecting the response
    node.received_response(1);
    assert!(!node.has_ever_responded());

    // When it's expecting the response
    let last_seen_before = node.last_seen();
    let transaction_id = 2;
    node.sent_query(transaction_id);
    node.received_response(transaction_id);
    let last_seen_after = node.last_seen();
    assert!(last_seen_before < last_seen_after);
    assert!(node.has_ever_responded());
}

#[test]
fn test_serialize() {
    let udp_transport_message = protobufs::UdpTransport { ip_address: vec![192, 168, 1, 2], port: 9000 };
    let transport_message = protobufs::Transport {
        transport_type: protobufs::Transport_Type::UDP,
        udp_transport: udp_transport_message,
    };
    let node_message = protobufs::Node {
        id: "8b45e4bd1c6acb88bebf6407d16205f567e62a3e".to_string(),
        transports: vec![transport_message],
    };

    let address = Address::for_content("some string");
    let mut transports = Vec::new();
    transports.push(Transport::Udp(UdpTransport::new([192, 168, 1, 2], 9000)));
    let node = Node::new(address, transports);
    assert_eq!(node.serialize(), node_message);
}

#[test]
fn test_deserialize_reads_what_serialize_writes() {
    let address = Address::for_content("some string");
    let node = Node::new(address, vec![udp([10, 0, 0, 1], 6667), udp([10, 0, 0, 2], 6668)]);
    let read = Node::deserialize(&node.serialize()).unwrap();
    assert_eq!(read.address(), address);
    assert_eq!(read.transports(), node.transports());
    assert_eq!(read.pending_query_count(), 0);
    assert!(!read.has_ever_responded());
}

#[test]
fn test_deserialize_rejects_an_address_that_is_not_hexadecimal() {
    let record = protobufs::Node { id: "xyz".to_string(), transports: vec![] };
    assert_eq!(
        Node::deserialize(&record).err(),
        Some(DeserializeError::InvalidAddress(HexError::InvalidCharacter('x', 0)))
    );
}

#[test]
fn test_deserialize_rejects_a_transport_without_four_octets() {
    let record = protobufs::Node {
        id: "00".to_string(),
        transports: vec![protobufs::Transport {
            transport_type: protobufs::Transport_Type::UDP,
            udp_transport: protobufs::UdpTransport { ip_address: vec![1, 2, 3], port: 80 },
        }],
    };
    assert_eq!(Node::deserialize(&record).err(), Some(DeserializeError::InvalidTransport));
}

#[test]
fn test_transport_deserialize_takes_four_octets_and_sixteen_bits() {
    let record = protobufs::Transport {
        transport_type: protobufs::Transport_Type::UDP,
        udp_transport: protobufs::UdpTransport { ip_address: vec![1, 2, 3, 4, 5], port: 0x1_0050 },
    };
    assert_eq!(Transport::deserialize(&record), Some(udp([1, 2, 3, 4], 0x50)));
    let Transport::Udp(transport) = udp([1, 2, 3, 4], 0x50);
    assert_eq!(transport.ip(), IpAddress::V4(1, 2, 3, 4));
    assert_eq!(transport.port(), 0x50);
    assert_eq!(
        udp([1, 2, 3, 4], 0x50).serialize(),
        protobufs::Transport {
            transport_type: protobufs::Transport_Type::UDP,
            udp_transport: protobufs::UdpTransport { ip_address: vec![1, 2, 3, 4], port: 0x50 },
        }
    );
}

#[test]
fn test_new_takes_each_transport_once() {
    let node = Node::new_at(
        Address::null(),
        vec![udp([1, 1, 1, 1], 1), udp([2, 2, 2, 2], 2), udp([1, 1, 1, 1], 1)],
        at(0),
    );
    assert_eq!(node.transports(), &vec![udp([1, 1, 1, 1], 1), udp([2, 2, 2, 2], 2)]);
}

#[test]
fn test_update_connection_adds_what_is_new() {
    let mut node = Node::new_at(Address::null(), vec![udp([1, 1, 1, 1], 1)], at(0));
    let other = Node::new_at(
        Address::null(),
        vec![udp([3, 3, 3, 3], 3), udp([1, 1, 1, 1], 1)],
        at(0),
    );
    node.update_connection(other);
    assert_eq!(node.transports(), &vec![udp([1, 1, 1, 1], 1), udp([3, 3, 3, 3], 3)]);
}

#[test]
fn test_fresh_node_is_questionable() {
    let node = Node::new_at(Address::null(), vec![], at(100));
    assert_eq!(node.status_at(at(100)), Status::Questionable);
    assert!(node.is_questionable_at(at(100)));
    assert!(!node.is_bad_at(at(100)));
    assert_eq!(node.last_seen(), at(100));
}

#[test]
fn test_node_that_answered_is_good_for_fifteen_minutes() {
    let mut node = Node::new_at(Address::null(), vec![], at(0));
    node.sent_query_at(7, at(10));
    assert_eq!(node.pending_query_count(), 1);
    node.received_response_at(7, at(20));
    assert!(node.has_ever_responded());
    assert_eq!(node.pending_query_count(), 0);
    assert_eq!(node.last_seen(), at(20));
    let window = MINUTES_UNTIL_QUESTIONABLE * 60;
    assert_eq!(node.status_at(at(20)), Status::Good);
    assert_eq!(node.status_at(at(20 + window - 1)), Status::Good);
    assert_eq!(node.status_at(at(20 + window)), Status::Questionable);
    node.received_query_at(9, at(30 + window));
    assert_eq!(node.last_seen(), at(30 + window));
    assert_eq!(node.status_at(at(20 + window)), Status::Good);
}

#[test]
fn test_response_that_was_not_asked_for_only_counts_as_seen() {
    let mut node = Node::new_at(Address::null(), vec![], at(0));
    node.sent_query_at(1, at(1));
    node.received_response_at(2, at(5));
    assert!(!node.has_ever_responded());
    assert_eq!(node.pending_query_count(), 1);
    assert_eq!(node.last_seen(), at(5));
}

#[test]
fn test_answer_is_noted() {
    let mut node = Node::new_at(Address::null(), vec![], at(0));
    let before = node.last_seen();
    assert!(!node.has_ever_responded());
    node.sent_query_at(2, at(0));
    node.received_response_at(2, at(1));
    assert!(node.has_ever_responded());
    assert!(before < node.last_seen());
    assert_eq!(node.last_seen(), at(1));
}

#[test]
fn test_node_with_six_unanswered_queries_is_bad() {
    let mut node = Node::new_at(Address::null(), vec![], at(0));
    for id in 0..(FAILED_TO_RESPOND_THRESHOLD as u32 + 1) {
        node.sent_query_at(id, at(1));
    }
    assert_eq!(node.pending_query_count(), 6);
    assert_eq!(node.status_at(at(2)), Status::Bad);
    assert!(node.is_bad_at(at(2)));
    assert!(node.is_bad());
    assert!(!node.is_questionable());
    assert_eq!(node.status(), Status::Bad);
}

#[test]
fn test_bad_begins_at_the_threshold() {
    let mut node = Node::new_at(Address::null(), vec![], at(0));
    for id in 0..4 {
        node.sent_query_at(id, at(1));
    }
    assert_eq!(node.status_at(at(2)), Status::Questionable);
    node.sent_query_at(4, at(1));
    assert_eq!(node.status_at(at(2)), Status::Bad);
    node.sent_query_at(4, at(2));
    assert_eq!(node.pending_query_count(), 5);
}

#[test]
fn test_good_node_with_many_unanswered_queries_is_good() {
    let mut node = Node::new_at(Address::null(), vec![], at(0));
    node.sent_query_at(100, at(0));
    node.received_response_at(100, at(1));
    for id in 0..6 {
        node.sent_query_at(id, at(1));
    }
    assert_eq!(node.status_at(at(2)), Status::Good);
    assert_eq!(node.status_at(at(2 + 15 * 60)), Status::Bad);
}

#[test]
fn test_transport_at_an_ipv6_address() {
    let transport = UdpTransport::new_v6(1, 6667);
    assert_eq!(transport.ip(), IpAddress::V6(1));
    assert_eq!(transport.port(), 6667);
    assert!(Transport::Udp(transport) != Transport::Udp(UdpTransport::new_v6(2, 6667)));
    // a record has room for four octets only
    assert_eq!(
        transport.serialize(),
        protobufs::Transport {
            transport_type: protobufs::Transport_Type::UDP,
            udp_transport: protobufs::UdpTransport { ip_address: vec![], port: 6667 },
        }
    );
    let node = Node::new_at(Address::null(), vec![Transport::Udp(transport)], at(0));
    assert_eq!(Node::deserialize(&node.serialize()).err(), Some(DeserializeError::InvalidTransport));
}
