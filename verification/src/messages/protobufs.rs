//! The records that travel between peers, as they are laid out on the wire.

use vstd::prelude::*;

verus! {

/// How to reach a peer over UDP.
#[derive(Clone, Debug, PartialEq, Eq)]
pub struct UdpTransport {
    /// The octets of the peer's IPv4 address.
    pub ip_address: Vec<u8>,
    pub port: u32,
}

/// The kinds of transport that a record can describe.
#[allow(non_camel_case_types)]
#[derive(Clone, Copy, Debug, PartialEq, Eq, Structural)]
pub enum Transport_Type {
    UDP,
}

/// One way to reach a peer.
#[derive(Clone, Debug, PartialEq, Eq)]
pub struct Transport {
    pub transport_type: Transport_Type,
    pub udp_transport: UdpTransport,
}

/// A peer as it describes itself to others.
#[derive(Clone, Debug, PartialEq, Eq)]
pub struct Node {
    /// The peer's address in hexadecimal.
    pub id: String,
    pub transports: Vec<Transport>,
}

/// Asks for the peers nearest to `target` that the receiver knows.
#[derive(Clone, Debug, PartialEq, Eq)]
pub struct FindNodeQuery {
    pub origin: Node,
    /// The address looked for, in hexadecimal.
    pub target: String,
}

#[derive(Clone, Debug, PartialEq, Eq)]
pub struct FindNodeResponse {
    pub origin: Node,
    pub nodes: Vec<Node>,
}

#[derive(Clone, Debug, PartialEq, Eq)]
pub struct PingQuery {
    pub origin: Node,
}

#[derive(Clone, Debug, PartialEq, Eq)]
pub struct PingResponse {
    pub origin: Node,
}

/// Carries bytes of the layer above to the receiver.
#[derive(Clone, Debug, PartialEq, Eq)]
pub struct PacketQuery {
    pub origin: Node,
    pub payload: Vec<u8>,
}

#[derive(Clone, Debug, PartialEq, Eq)]
pub struct PacketResponse {
    pub origin: Node,
}

/// The kinds of message that an envelope can carry.
#[allow(non_camel_case_types)]
#[derive(Clone, Copy, Debug, PartialEq, Eq, Structural)]
pub enum Envelope_Type {
    FIND_NODE_QUERY,
    FIND_NODE_RESPONSE,
    PING_QUERY,
    PING_RESPONSE,
    PACKET_QUERY,
    PACKET_RESPONSE,
}

/// The message inside an envelope.
#[derive(Clone, Debug, PartialEq, Eq)]
pub enum Payload {
    FindNodeQuery(FindNodeQuery),
    FindNodeResponse(FindNodeResponse),
    PingQuery(PingQuery),
    PingResponse(PingResponse),
    PacketQuery(PacketQuery),
    PacketResponse(PacketResponse),
}

/// What goes over the wire: one message and the transaction it belongs to.
#[derive(Clone, Debug, PartialEq, Eq)]
pub struct Envelope {
    pub transaction_id: u32,
    pub payload: Payload,
}

impl Envelope {
    /// The kind of message that the payload is.
    pub open spec fn message_type(&self) -> Envelope_Type {
        match self.payload {
            Payload::FindNodeQuery(_) => Envelope_Type::FIND_NODE_QUERY,
            Payload::FindNodeResponse(_) => Envelope_Type::FIND_NODE_RESPONSE,
            Payload::PingQuery(_) => Envelope_Type::PING_QUERY,
            Payload::PingResponse(_) => Envelope_Type::PING_RESPONSE,
            Payload::PacketQuery(_) => Envelope_Type::PACKET_QUERY,
            Payload::PacketResponse(_) => Envelope_Type::PACKET_RESPONSE,
        }
    }

    pub fn get_transaction_id(&self) -> (id: u32)
        ensures
            id == self.transaction_id,
    {
        self.transaction_id
    }

    /// The kind of message that the payload is.
    pub fn get_message_type(&self) -> (kind: Envelope_Type)
        ensures
            kind == self.message_type(),
    {
        match &self.payload {
            Payload::FindNodeQuery(_) => Envelope_Type::FIND_NODE_QUERY,
            Payload::FindNodeResponse(_) => Envelope_Type::FIND_NODE_RESPONSE,
            Payload::PingQuery(_) => Envelope_Type::PING_QUERY,
            Payload::PingResponse(_) => Envelope_Type::PING_RESPONSE,
            Payload::PacketQuery(_) => Envelope_Type::PACKET_QUERY,
            Payload::PacketResponse(_) => Envelope_Type::PACKET_RESPONSE,
        }
    }
}

} // verus!
