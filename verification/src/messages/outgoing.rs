//! The messages that we send: each as the envelope that goes over the wire.

use crate::address::Address;
use crate::node::{Node, NodeView, Serialize, Transport};
use crate::messages::protobufs::{
    Envelope, FindNodeQuery, FindNodeResponse, PacketQuery, PacketResponse, Payload, PingQuery,
    PingResponse,
};
use crate::messages::protobufs;
use crate::transaction::TransactionId;
use vstd::prelude::*;

verus! {

/// A message on its way: the envelope, and the transports of the node that it is for.
pub struct Outgoing {
    pub transports: Vec<Transport>,
    pub envelope: Envelope,
}

/// A copy of the transports.
pub fn copy_transports(transports: &Vec<Transport>) -> (copy: Vec<Transport>)
    ensures
        copy@ == transports@,
{
    let mut copy: Vec<Transport> = Vec::new();
    let mut i: usize = 0;
    while i < transports.len()
        invariant
            i <= transports.len(),
            copy@ == transports@.take(i as int),
        decreases transports.len() - i,
    {
        copy.push(transports[i]);
        i += 1;
        assert(copy@ =~= transports@.take(i as int));
    }
    assert(transports@.take(i as int) =~= transports@);
    copy
}

/// Whether the envelope asks, for `origin` and in the given transaction, for the nodes nearest
/// to `target`.
pub open spec fn is_find_node_query(
    envelope: Envelope,
    transaction_id: TransactionId,
    origin: NodeView,
    target: Address,
) -> bool {
    &&& envelope.transaction_id == transaction_id
    &&& envelope.payload matches Payload::FindNodeQuery(query)
    &&& origin.described_by(query.origin)
    &&& query.target@ == target.text()
}

/// Whether the envelope answers, for `origin` and in the given transaction, with the given
/// nodes, in their order.
pub open spec fn is_find_node_response(
    envelope: Envelope,
    transaction_id: TransactionId,
    origin: NodeView,
    nodes: Seq<NodeView>,
) -> bool {
    &&& envelope.transaction_id == transaction_id
    &&& envelope.payload matches Payload::FindNodeResponse(response)
    &&& origin.described_by(response.origin)
    &&& response.nodes@.len() == nodes.len()
    &&& forall|i: int| 0 <= i < nodes.len() ==> (#[trigger] nodes[i]).described_by(response.nodes@[i])
}

/// Whether the envelope is a ping of `origin` in the given transaction.
pub open spec fn is_ping_query(envelope: Envelope, transaction_id: TransactionId, origin: NodeView) -> bool {
    &&& envelope.transaction_id == transaction_id
    &&& envelope.payload matches Payload::PingQuery(query)
    &&& origin.described_by(query.origin)
}

/// Whether the envelope is the answer of `origin` to a ping in the given transaction.
pub open spec fn is_ping_response(
    envelope: Envelope,
    transaction_id: TransactionId,
    origin: NodeView,
) -> bool {
    &&& envelope.transaction_id == transaction_id
    &&& envelope.payload matches Payload::PingResponse(response)
    &&& origin.described_by(response.origin)
}

/// Whether the envelope carries, for `origin` and in the given transaction, the given bytes.
pub open spec fn is_packet_query(
    envelope: Envelope,
    transaction_id: TransactionId,
    origin: NodeView,
    payload: Seq<u8>,
) -> bool {
    &&& envelope.transaction_id == transaction_id
    &&& envelope.payload matches Payload::PacketQuery(query)
    &&& origin.described_by(query.origin)
    &&& query.payload@ == payload
}

/// Whether the envelope confirms, for `origin`, a packet of the given transaction.
pub open spec fn is_packet_response(
    envelope: Envelope,
    transaction_id: TransactionId,
    origin: NodeView,
) -> bool {
    &&& envelope.transaction_id == transaction_id
    &&& envelope.payload matches Payload::PacketResponse(response)
    &&& origin.described_by(response.origin)
}

pub fn create_find_node_query(transaction_id: TransactionId, origin: &Node, target: &Address) -> (envelope:
    Envelope)
    ensures
        is_find_node_query(envelope, transaction_id, origin@, *target),
{
    Envelope {
        transaction_id,
        payload: Payload::FindNodeQuery(
            FindNodeQuery { origin: origin.serialize(), target: target.to_str() },
        ),
    }
}

pub fn create_find_node_response(transaction_id: TransactionId, origin: &Node, nodes: &Vec<&Node>) -> (envelope:
    Envelope)
    ensures
        is_find_node_response(
            envelope,
            transaction_id,
            origin@,
            Seq::new(nodes@.len(), |i: int| nodes@[i]@),
        ),
{
    let mut records: Vec<protobufs::Node> = Vec::new();
    let mut i: usize = 0;
    while i < nodes.len()
        invariant
            i <= nodes.len(),
            records@.len() == i,
            forall|j: int| 0 <= j < i ==> (#[trigger] nodes@[j])@.described_by(records@[j]),
        decreases nodes.len() - i,
    {
        records.push(nodes[i].serialize());
        i += 1;
    }
    Envelope {
        transaction_id,
        payload: Payload::FindNodeResponse(
            FindNodeResponse { origin: origin.serialize(), nodes: records },
        ),
    }
}

pub fn create_ping_query(transaction_id: TransactionId, origin: &Node) -> (envelope: Envelope)
    ensures
        is_ping_query(envelope, transaction_id, origin@),
{
    Envelope { transaction_id, payload: Payload::PingQuery(PingQuery { origin: origin.serialize() }) }
}

pub fn create_ping_response(transaction_id: TransactionId, origin: &Node) -> (envelope: Envelope)
    ensures
        is_ping_response(envelope, transaction_id, origin@),
{
    Envelope {
        transaction_id,
        payload: Payload::PingResponse(PingResponse { origin: origin.serialize() }),
    }
}

pub fn create_packet_query(transaction_id: TransactionId, origin: &Node, payload: Vec<u8>) -> (envelope:
    Envelope)
    ensures
        is_packet_query(envelope, transaction_id, origin@, payload@),
{
    Envelope {
        transaction_id,
        payload: Payload::PacketQuery(PacketQuery { origin: origin.serialize(), payload }),
    }
}

pub fn create_packet_response(transaction_id: TransactionId, origin: &Node) -> (envelope: Envelope)
    ensures
        is_packet_response(envelope, transaction_id, origin@),
{
    Envelope {
        transaction_id,
        payload: Payload::PacketResponse(PacketResponse { origin: origin.serialize() }),
    }
}

} // verus!
