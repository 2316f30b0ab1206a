//! The messages that we receive, read from the envelopes that came over the wire.

use crate::address::Address;
use crate::messages::protobufs::{Envelope, Payload};
use crate::messages::protobufs;
use crate::node::{views, DeserializeError, Node, NodeView};
use crate::timestamp::Timestamp;
use crate::transaction::TransactionId;
use vstd::prelude::*;

verus! {

/// What a peer asks of us.
#[derive(Debug)]
pub enum Query {
    /// The nodes that we know nearest to the address.
    FindNode(Address),
    /// To take the bytes for the layer above.
    Packet(Vec<u8>),
    /// A sign of life.
    Ping,
}

/// What a peer answers.
pub enum Response {
    /// The nodes that it knows nearest to the address we asked for.
    FindNode(Vec<Node>),
    Packet,
    Ping,
}

/// A message from a peer: the transaction, who sent it, and what it says.
pub enum Message {
    Query(TransactionId, Node, Query),
    Response(TransactionId, Node, Response),
}

/// What a query says.
pub enum QueryView {
    FindNode(Address),
    Packet(Seq<u8>),
    Ping,
}

/// What a response says.
pub enum ResponseView {
    FindNode(Seq<NodeView>),
    Packet,
    Ping,
}

/// What a message says.
pub enum MessageView {
    Query(TransactionId, NodeView, QueryView),
    Response(TransactionId, NodeView, ResponseView),
}

impl View for Query {
    type V = QueryView;

    open spec fn view(&self) -> QueryView {
        match *self {
            Query::FindNode(target) => QueryView::FindNode(target),
            Query::Packet(payload) => QueryView::Packet(payload@),
            Query::Ping => QueryView::Ping,
        }
    }
}

impl View for Response {
    type V = ResponseView;

    open spec fn view(&self) -> ResponseView {
        match *self {
            Response::FindNode(nodes) => ResponseView::FindNode(views(nodes@)),
            Response::Packet => ResponseView::Packet,
            Response::Ping => ResponseView::Ping,
        }
    }
}

impl View for Message {
    type V = MessageView;

    open spec fn view(&self) -> MessageView {
        match *self {
            Message::Query(transaction_id, origin, query) => MessageView::Query(
                transaction_id,
                origin@,
                query@,
            ),
            Message::Response(transaction_id, origin, response) => MessageView::Response(
                transaction_id,
                origin@,
                response@,
            ),
        }
    }
}

/// The nodes that records describe when first met at `now`, or why the first record that
/// describes none does not.
pub open spec fn described_nodes(records: Seq<protobufs::Node>, now: Timestamp) -> Result<
    Seq<NodeView>,
    DeserializeError,
>
    decreases records.len(),
{
    if records.len() == 0 {
        Ok(Seq::empty())
    } else {
        match described_nodes(records.drop_last(), now) {
            Err(error) => Err(error),
            Ok(nodes) => match Node::described(records.last(), now) {
                Err(error) => Err(error),
                Ok(node) => Ok(nodes.push(node)),
            },
        }
    }
}

/// What an envelope that arrives at `now` says, or why it says nothing: the first of its
/// sender, its target and its nodes that is not as it should be.
pub open spec fn parsed(envelope: Envelope, now: Timestamp) -> Result<MessageView, DeserializeError> {
    let transaction_id = envelope.transaction_id;
    match envelope.payload {
        Payload::FindNodeQuery(query) => match Node::described(query.origin, now) {
            Err(error) => Err(error),
            Ok(origin) => match Address::parsed(query.target@) {
                Err(error) => Err(DeserializeError::InvalidAddress(error)),
                Ok(target) => Ok(
                    MessageView::Query(transaction_id, origin, QueryView::FindNode(target)),
                ),
            },
        },
        Payload::FindNodeResponse(response) => match Node::described(response.origin, now) {
            Err(error) => Err(error),
            Ok(origin) => match described_nodes(response.nodes@, now) {
                Err(error) => Err(error),
                Ok(nodes) => Ok(
                    MessageView::Response(transaction_id, origin, ResponseView::FindNode(nodes)),
                ),
            },
        },
        Payload::PingQuery(query) => match Node::described(query.origin, now) {
            Err(error) => Err(error),
            Ok(origin) => Ok(MessageView::Query(transaction_id, origin, QueryView::Ping)),
        },
        Payload::PingResponse(response) => match Node::described(response.origin, now) {
            Err(error) => Err(error),
            Ok(origin) => Ok(MessageView::Response(transaction_id, origin, ResponseView::Ping)),
        },
        Payload::PacketQuery(query) => match Node::described(query.origin, now) {
            Err(error) => Err(error),
            Ok(origin) => Ok(
                MessageView::Query(transaction_id, origin, QueryView::Packet(query.payload@)),
            ),
        },
        Payload::PacketResponse(response) => match Node::described(response.origin, now) {
            Err(error) => Err(error),
            Ok(origin) => Ok(MessageView::Response(transaction_id, origin, ResponseView::Packet)),
        },
    }
}

/// Whether each of the nodes is in order.
pub open spec fn all_wf(nodes: Seq<NodeView>) -> bool {
    forall|i: int| 0 <= i < nodes.len() ==> (#[trigger] nodes[i]).wf()
}

/// Whether every node of a message is in order.
pub open spec fn message_wf(message: MessageView) -> bool {
    match message {
        MessageView::Query(_, origin, _) => origin.wf(),
        MessageView::Response(_, origin, ResponseView::FindNode(nodes)) => origin.wf() && all_wf(
            nodes,
        ),
        MessageView::Response(_, origin, _) => origin.wf(),
    }
}

/// The nodes that the records describe, first met at `now`.
fn deserialize_nodes(records: &Vec<protobufs::Node>, now: Timestamp) -> (outcome: Result<
    Vec<Node>,
    DeserializeError,
>)
    ensures
        match outcome {
            Ok(nodes) => described_nodes(records@, now) == Ok::<Seq<NodeView>, DeserializeError>(
                views(nodes@),
            ) && forall|i: int| 0 <= i < nodes@.len() ==> (#[trigger] nodes@[i]).wf(),
            Err(error) => described_nodes(records@, now) == Err::<Seq<NodeView>, DeserializeError>(
                error,
            ),
        },
{
    let mut nodes: Vec<Node> = Vec::new();
    let mut i: usize = 0;
    assert(views(nodes@) =~= Seq::empty());
    while i < records.len()
        invariant
            i <= records.len(),
            described_nodes(records@.take(i as int), now) == Ok::<Seq<NodeView>, DeserializeError>(
                views(nodes@),
            ),
            forall|j: int| 0 <= j < nodes@.len() ==> (#[trigger] nodes@[j]).wf(),
        decreases records.len() - i,
    {
        let ghost read = records@.take(i as int);
        let ghost before = nodes@;
        assert(records@.take(i + 1).drop_last() =~= read);
        match Node::deserialize_at(&records[i], now) {
            Ok(node) => {
                assert(views(before.push(node)) =~= views(before).push(node@));
                nodes.push(node);
            },
            Err(error) => {
                proof {
                    lemma_described_nodes_fails(records@, i as int, now);
                }
                return Err(error);
            },
        }
        i += 1;
    }
    assert(records@.take(i as int) =~= records@);
    Ok(nodes)
}

/// Where the records before the one at `at` describe nodes and that one does not, the records
/// fail as that one does.
proof fn lemma_described_nodes_fails(records: Seq<protobufs::Node>, at: int, now: Timestamp)
    requires
        0 <= at < records.len(),
        described_nodes(records.take(at), now) is Ok,
        Node::described(records[at], now) is Err,
    ensures
        described_nodes(records, now) == Err::<Seq<NodeView>, DeserializeError>(
            Node::described(records[at], now)->Err_0,
        ),
    decreases records.len(),
{
    if at < records.len() - 1 {
        assert(records.drop_last().take(at) =~= records.take(at));
        lemma_described_nodes_fails(records.drop_last(), at, now);
    } else {
        assert(records.drop_last() =~= records.take(at));
    }
}

/// What a message read from an envelope says, or why none was read.
pub open spec fn outcome_view(outcome: Result<Message, DeserializeError>) -> Result<
    MessageView,
    DeserializeError,
> {
    match outcome {
        Ok(message) => Ok(message@),
        Err(error) => Err(error),
    }
}

/// Reads the message of an envelope that arrives now.
pub fn parse_envelope(envelope: &Envelope) -> (outcome: Result<Message, DeserializeError>)
    ensures
        exists|now: Timestamp| #[trigger] parsed(*envelope, now) == outcome_view(outcome),
        outcome matches Ok(message) ==> message_wf(message@),
{
    parse_envelope_at(envelope, Timestamp::now())
}

/// Reads the message of an envelope that arrives at `now`.
pub fn parse_envelope_at(envelope: &Envelope, now: Timestamp) -> (outcome: Result<
    Message,
    DeserializeError,
>)
    ensures
        parsed(*envelope, now) == outcome_view(outcome),
        outcome matches Ok(message) ==> message_wf(message@),
{
    let transaction_id = envelope.transaction_id;
    match &envelope.payload {
        Payload::FindNodeQuery(query) => {
            let origin = match Node::deserialize_at(&query.origin, now) {
                Ok(origin) => origin,
                Err(error) => {
                    return Err(error);
                },
            };
            match Address::from_str(query.target.as_str()) {
                Ok(target) => Ok(Message::Query(transaction_id, origin, Query::FindNode(target))),
                Err(error) => Err(DeserializeError::InvalidAddress(error)),
            }
        },
        Payload::FindNodeResponse(response) => {
            let origin = match Node::deserialize_at(&response.origin, now) {
                Ok(origin) => origin,
                Err(error) => {
                    return Err(error);
                },
            };
            match deserialize_nodes(&response.nodes, now) {
                Ok(nodes) => {
                    assert forall|i: int| 0 <= i < views(nodes@).len() implies (#[trigger] views(
                        nodes@,
                    )[i]).wf() by {
                        assert(nodes@[i].wf());
                    }
                    Ok(Message::Response(transaction_id, origin, Response::FindNode(nodes)))
                },
                Err(error) => Err(error),
            }
        },
        Payload::PingQuery(query) => {
            match Node::deserialize_at(&query.origin, now) {
                Ok(origin) => Ok(Message::Query(transaction_id, origin, Query::Ping)),
                Err(error) => Err(error),
            }
        },
        Payload::PingResponse(response) => {
            match Node::deserialize_at(&response.origin, now) {
                Ok(origin) => Ok(Message::Response(transaction_id, origin, Response::Ping)),
                Err(error) => Err(error),
            }
        },
        Payload::PacketQuery(query) => {
            match Node::deserialize_at(&query.origin, now) {
                Ok(origin) => {
                    let payload = copy_bytes(&query.payload);
                    Ok(Message::Query(transaction_id, origin, Query::Packet(payload)))
                },
                Err(error) => Err(error),
            }
        },
        Payload::PacketResponse(response) => {
            match Node::deserialize_at(&response.origin, now) {
                Ok(origin) => Ok(Message::Response(transaction_id, origin, Response::Packet)),
                Err(error) => Err(error),
            }
        },
    }
}

/// A copy of the bytes.
pub fn copy_bytes(bytes: &Vec<u8>) -> (copy: Vec<u8>)
    ensures
        copy@ == bytes@,
{
    let mut copy: Vec<u8> = Vec::new();
    let mut i: usize = 0;
    while i < bytes.len()
        invariant
            i <= bytes.len(),
            copy@ == bytes@.take(i as int),
        decreases bytes.len() - i,
    {
        copy.push(bytes[i]);
        i += 1;
        assert(copy@ =~= bytes@.take(i as int));
    }
    assert(bytes@.take(i as int) =~= bytes@);
    copy
}

} // verus!
