//! Peers: who they are, how to reach them, and how alive they seem.

use crate::address::{Address, Addressable};
use crate::hex::HexError;
use crate::messages::protobufs;
use crate::timestamp::{Timestamp, NANOSECONDS_PER_MINUTE};
use crate::transaction::TransactionId;
use std::collections::HashMap;
use vstd::prelude::*;

verus! {

/// The number of queries sent without a response at which a node is considered bad.
pub const FAILED_TO_RESPOND_THRESHOLD: usize = 5;

/// A node becomes questionable if it hasn't been heard from in this many minutes.
pub const MINUTES_UNTIL_QUESTIONABLE: i64 = 15;

/// Anything that can describe itself in a message to other peers.
pub trait Serialize {
    /// Whether `record` is the record that describes `self`.
    spec fn described_by(&self, record: protobufs::Node) -> bool;

    fn serialize(&self) -> (record: protobufs::Node)
        ensures
            self.described_by(record),
    ;
}

/// How alive a node seems.
#[derive(Clone, Copy, Debug, PartialEq, Eq, Structural)]
pub enum Status {
    /// It has answered before and was heard from lately.
    Good,
    /// It is not known to be alive, and has not failed to answer too often either.
    Questionable,
    /// Too many queries to it are still without an answer.
    Bad,
}

/// A means to send bytes to a node.
#[derive(Clone, Copy, Debug, PartialEq, Eq, Hash, Structural)]
pub enum Transport {
    Udp(UdpTransport),
}

/// Why a record does not describe a node.
#[derive(Clone, Copy, Debug, PartialEq, Eq, Structural)]
pub enum DeserializeError {
    /// The node's address is not hexadecimal.
    InvalidAddress(HexError),
    /// A transport has fewer than the four octets of an IPv4 address.
    InvalidTransport,
}

/// Where on the internet a socket is: at an address of four octets, or at one of the longer
/// kind, held as a number of 128 bits.
#[derive(Clone, Copy, Debug, PartialEq, Eq, Hash, Structural)]
pub enum IpAddress {
    V4(u8, u8, u8, u8),
    V6(u128),
}

/// A UDP socket of a node: an internet address and a port.
#[derive(Clone, Copy, Debug, PartialEq, Eq, Hash, Structural)]
pub struct UdpTransport {
    ip: IpAddress,
    port: u16,
}

impl UdpTransport {
    /// The internet address of the socket.
    pub closed spec fn ip_address(&self) -> IpAddress {
        self.ip
    }

    /// The octets that describe the address in a record: the four of an IPv4 address. Of an
    /// IPv6 address there are none, since a record has room for four only.
    pub open spec fn ip_octets(&self) -> Seq<u8> {
        match self.ip_address() {
            IpAddress::V4(first, second, third, fourth) => seq![first, second, third, fourth],
            IpAddress::V6(_) => Seq::empty(),
        }
    }

    pub closed spec fn port_number(&self) -> u16 {
        self.port
    }

    /// The socket at an IPv4 address.
    pub fn new(ip: [u8; 4], port: u16) -> (transport: UdpTransport)
        ensures
            transport.ip_address() == IpAddress::V4(ip@[0], ip@[1], ip@[2], ip@[3]),
            transport.ip_octets() == ip@,
            transport.port_number() == port,
    {
        let transport = UdpTransport { ip: IpAddress::V4(ip[0], ip[1], ip[2], ip[3]), port };
        assert(transport.ip_octets() =~= ip@);
        transport
    }

    /// The socket at an IPv6 address, given as a number.
    pub fn new_v6(ip: u128, port: u16) -> (transport: UdpTransport)
        ensures
            transport.ip_address() == IpAddress::V6(ip),
            transport.port_number() == port,
    {
        UdpTransport { ip: IpAddress::V6(ip), port }
    }

    pub fn ip(&self) -> (ip: IpAddress)
        ensures
            ip == self.ip_address(),
    {
        self.ip
    }

    pub fn port(&self) -> (port: u16)
        ensures
            port == self.port_number(),
    {
        self.port
    }

    /// The transport with the first four of the given octets and the port.
    pub closed spec fn of(octets: Seq<u8>, port: u16) -> UdpTransport {
        UdpTransport { ip: IpAddress::V4(octets[0], octets[1], octets[2], octets[3]), port }
    }

    /// Whether `record` describes this transport: it holds the octets and the port.
    pub open spec fn described_by(&self, record: protobufs::Transport) -> bool {
        &&& record.transport_type == protobufs::Transport_Type::UDP
        &&& record.udp_transport.ip_address@ == self.ip_octets()
        &&& record.udp_transport.port == self.port_number()
    }

    pub fn serialize(&self) -> (record: protobufs::Transport)
        ensures
            self.described_by(record),
    {
        let mut ip_address: Vec<u8> = Vec::new();
        match self.ip {
            IpAddress::V4(first, second, third, fourth) => {
                ip_address.push(first);
                ip_address.push(second);
                ip_address.push(third);
                ip_address.push(fourth);
            },
            IpAddress::V6(_) => {},
        }
        assert(ip_address@ =~= self.ip_octets());
        protobufs::Transport {
            transport_type: protobufs::Transport_Type::UDP,
            udp_transport: protobufs::UdpTransport { ip_address, port: self.port as u32 },
        }
    }
}

impl Transport {
    /// The transport that a record describes: its first four octets and the lower sixteen bits
    /// of its port. A record with fewer than four octets describes none.
    pub open spec fn described(record: protobufs::Transport) -> Option<Transport> {
        if record.udp_transport.ip_address@.len() >= 4 {
            Some(
                Transport::Udp(
                    UdpTransport::of(
                        record.udp_transport.ip_address@,
                        (record.udp_transport.port % 0x1_0000) as u16,
                    ),
                ),
            )
        } else {
            None
        }
    }

    /// Whether `record` describes this transport.
    pub open spec fn described_by(&self, record: protobufs::Transport) -> bool {
        match *self {
            Transport::Udp(transport) => transport.described_by(record),
        }
    }

    pub fn deserialize(message: &protobufs::Transport) -> (transport: Option<Transport>)
        ensures
            transport == Transport::described(*message),
    {
        match message.transport_type {
            protobufs::Transport_Type::UDP => {
                let ip = &message.udp_transport.ip_address;
                if ip.len() >= 4 {
                    let port: u16 = (message.udp_transport.port % 0x1_0000) as u16;
                    Some(
                        Transport::Udp(
                            UdpTransport { ip: IpAddress::V4(ip[0], ip[1], ip[2], ip[3]), port },
                        ),
                    )
                } else {
                    None
                }
            },
        }
    }

    pub fn serialize(&self) -> (record: protobufs::Transport)
        ensures
            self.described_by(record),
    {
        match self {
            Transport::Udp(transport) => transport.serialize(),
        }
    }
}

/// The list with `transport` at its end, unless the list holds it already.
pub open spec fn with_transport(list: Seq<Transport>, transport: Transport) -> Seq<Transport> {
    if list.contains(transport) {
        list
    } else {
        list.push(transport)
    }
}

/// The list with each of `more` that it does not hold yet added at its end, in their order.
pub open spec fn with_transports(list: Seq<Transport>, more: Seq<Transport>) -> Seq<Transport>
    decreases more.len(),
{
    if more.len() == 0 {
        list
    } else {
        with_transports(with_transport(list, more[0]), more.drop_first())
    }
}

/// Adding transports one by one never adds one twice.
pub proof fn lemma_with_transports_distinct(list: Seq<Transport>, more: Seq<Transport>)
    requires
        list.no_duplicates(),
    ensures
        with_transports(list, more).no_duplicates(),
    decreases more.len(),
{
    if more.len() > 0 {
        lemma_with_transports_distinct(with_transport(list, more[0]), more.drop_first());
    }
}

/// What a node is known by: its address, the ways to reach it, and what was heard of it.
pub struct NodeView {
    pub address: Address,
    /// The ways to reach the node, none of them twice.
    pub transports: Seq<Transport>,
    /// The queries that the node has not answered, each with the time it was sent.
    pub pending_queries: Map<TransactionId, Timestamp>,
    pub has_ever_responded: bool,
    pub last_received_query: Timestamp,
    pub last_received_response: Timestamp,
}

impl NodeView {
    /// Whether the node is in order: none of its transports occurs twice.
    pub open spec fn wf(self) -> bool {
        self.transports.no_duplicates()
    }

    /// A node that was first met at `now` and has nothing outstanding.
    pub open spec fn fresh(address: Address, transports: Seq<Transport>, now: Timestamp) -> NodeView {
        NodeView {
            address,
            transports: with_transports(Seq::empty(), transports),
            pending_queries: Map::empty(),
            has_ever_responded: false,
            last_received_query: now,
            last_received_response: now,
        }
    }

    /// The last time a query or a response came from the node.
    pub open spec fn last_seen(self) -> Timestamp {
        Timestamp::later_of(self.last_received_query, self.last_received_response)
    }

    /// How many queries the node has not answered.
    pub open spec fn pending_query_count(self) -> nat {
        self.pending_queries.len()
    }

    /// How alive the node seems at `now`. It is good if it has ever responded and was seen
    /// less than [`MINUTES_UNTIL_QUESTIONABLE`] minutes ago. Otherwise it is bad once
    /// [`FAILED_TO_RESPOND_THRESHOLD`] queries are unanswered, and questionable before that.
    pub open spec fn status(self, now: Timestamp) -> Status {
        if self.has_ever_responded && now@ - self.last_seen()@ < MINUTES_UNTIL_QUESTIONABLE
            * NANOSECONDS_PER_MINUTE {
            Status::Good
        } else if self.pending_query_count() < FAILED_TO_RESPOND_THRESHOLD {
            Status::Questionable
        } else {
            Status::Bad
        }
    }

    /// The node after a query to it was sent at `now`.
    pub open spec fn sent_query(self, transaction_id: TransactionId, now: Timestamp) -> NodeView {
        NodeView { pending_queries: self.pending_queries.insert(transaction_id, now), ..self }
    }

    /// The node after a query from it came in at `now`.
    pub open spec fn received_query(self, now: Timestamp) -> NodeView {
        NodeView { last_received_query: now, ..self }
    }

    /// The node after a response from it came in at `now`. The response counts as an answer
    /// only if a query with its transaction is pending; that query is then pending no more.
    pub open spec fn received_response(self, transaction_id: TransactionId, now: Timestamp) -> NodeView {
        NodeView {
            last_received_response: now,
            pending_queries: self.pending_queries.remove(transaction_id),
            has_ever_responded: self.has_ever_responded || self.pending_queries.contains_key(
                transaction_id,
            ),
            ..self
        }
    }

    /// The node after it has taken over the transports of another.
    pub open spec fn update_connection(self, other: NodeView) -> NodeView {
        NodeView { transports: with_transports(self.transports, other.transports), ..self }
    }

    /// Whether `record` describes the node: its address in hexadecimal, and its transports in
    /// their order.
    pub open spec fn described_by(self, record: protobufs::Node) -> bool {
        &&& record.id@ == self.address.text()
        &&& record.transports@.len() == self.transports.len()
        &&& forall|i: int|
            0 <= i < self.transports.len() ==> (#[trigger] self.transports[i]).described_by(
                record.transports@[i],
            )
    }
}

/// A node that is met, asked and answers is known to have responded, and was last seen when
/// it answered, if that was after it was met.
pub proof fn lemma_answer_is_noted(
    address: Address,
    transports: Seq<Transport>,
    transaction_id: TransactionId,
    met: Timestamp,
    asked: Timestamp,
    answered: Timestamp,
)
    requires
        met@ < answered@,
    ensures
        !NodeView::fresh(address, transports, met).has_ever_responded,
        NodeView::fresh(address, transports, met).sent_query(transaction_id, asked).received_response(
            transaction_id,
            answered,
        ).has_ever_responded,
        NodeView::fresh(address, transports, met).last_seen()@ < NodeView::fresh(
            address,
            transports,
            met,
        ).sent_query(transaction_id, asked).received_response(transaction_id, answered).last_seen()@,
        NodeView::fresh(address, transports, met).sent_query(transaction_id, asked).received_response(
            transaction_id,
            answered,
        ).last_seen() == answered,
{
}

/// The transports that records describe, without those that a record before them describes
/// already; `None` where one of the records describes no transport.
pub open spec fn described_transports(records: Seq<protobufs::Transport>) -> Option<Seq<Transport>>
    decreases records.len(),
{
    if records.len() == 0 {
        Some(Seq::empty())
    } else {
        match (described_transports(records.drop_last()), Transport::described(records.last())) {
            (Some(list), Some(transport)) => Some(with_transport(list, transport)),
            _ => None,
        }
    }
}

/// What each of the nodes is known by.
pub open spec fn views(nodes: Seq<Node>) -> Seq<NodeView> {
    nodes.map_values(|node: Node| node@)
}

/// A peer in the network: another participant such as ourself. It has an address and means to
/// be sent messages, and it remembers what it heard and what it is still waiting for.
pub struct Node {
    address: Address,
    /// The set of transports, as a list that holds none twice; a hash set of a type with a
    /// derived `Hash` is nothing that the proofs could look into.
    transports: Vec<Transport>,
    pending_queries: HashMap<TransactionId, Timestamp>,
    has_ever_responded: bool,
    last_received_query: Timestamp,
    last_received_response: Timestamp,
}

impl View for Node {
    type V = NodeView;

    closed spec fn view(&self) -> NodeView {
        NodeView {
            address: self.address,
            transports: self.transports@,
            pending_queries: self.pending_queries@,
            has_ever_responded: self.has_ever_responded,
            last_received_query: self.last_received_query,
            last_received_response: self.last_received_response,
        }
    }
}

/// Adds `transport` at the end of the list, unless the list holds it already.
fn insert_transport(list: &mut Vec<Transport>, transport: Transport)
    ensures
        final(list)@ == with_transport(old(list)@, transport),
{
    let mut i: usize = 0;
    while i < list.len()
        invariant
            i <= list.len(),
            *list == *old(list),
            forall|j: int| 0 <= j < i ==> list@[j] != transport,
        decreases list.len() - i,
    {
        if list[i] == transport {
            return ;
        }
        i += 1;
    }
    list.push(transport);
}

/// Adds each of `more` that the list does not hold yet at its end, in their order.
fn insert_transports(list: &mut Vec<Transport>, more: &Vec<Transport>)
    ensures
        final(list)@ == with_transports(old(list)@, more@),
{
    let mut i: usize = 0;
    assert(more@.subrange(0, more@.len() as int) =~= more@);
    while i < more.len()
        invariant
            i <= more.len(),
            with_transports(list@, more@.subrange(i as int, more@.len() as int)) == with_transports(
                old(list)@,
                more@,
            ),
        decreases more.len() - i,
    {
        let ghost rest = more@.subrange(i as int, more@.len() as int);
        insert_transport(list, more[i]);
        i += 1;
        assert(rest.drop_first() =~= more@.subrange(i as int, more@.len() as int));
    }
}

impl Node {
    /// Whether the node is in order: none of its transports occurs twice.
    pub open spec fn wf(&self) -> bool {
        self@.wf()
    }

    /// A node first met now, reachable by the given transports (each taken once).
    pub fn new(address: Address, transports: Vec<Transport>) -> (node: Node)
        ensures
            node.wf(),
            exists|now: Timestamp| node@ == NodeView::fresh(address, transports@, now),
    {
        Node::new_at(address, transports, Timestamp::now())
    }

    /// A node first met at `now`, reachable by the given transports (each taken once).
    pub fn new_at(address: Address, transports: Vec<Transport>, now: Timestamp) -> (node: Node)
        ensures
            node.wf(),
            node@ == NodeView::fresh(address, transports@, now),
    {
        let mut distinct: Vec<Transport> = Vec::new();
        insert_transports(&mut distinct, &transports);
        proof {
            lemma_with_transports_distinct(Seq::empty(), transports@);
        }
        Node {
            address,
            transports: distinct,
            pending_queries: HashMap::new(),
            has_ever_responded: false,
            last_received_query: now,
            last_received_response: now,
        }
    }

    /// The node that a record describes, first met now.
    pub fn deserialize(message: &protobufs::Node) -> (outcome: Result<Node, DeserializeError>)
        ensures
            match outcome {
                Ok(node) => node.wf() && exists|now: Timestamp|
                    Node::described(*message, now) == Ok::<NodeView, DeserializeError>(node@),
                Err(error) => forall|now: Timestamp|
                    Node::described(*message, now) == Err::<NodeView, DeserializeError>(error),
            },
    {
        Node::deserialize_at(message, Timestamp::now())
    }

    /// The node that a record describes when it is first met at `now`: the address that the
    /// record's id spells, and each transport of the record once.
    pub open spec fn described(record: protobufs::Node, now: Timestamp) -> Result<
        NodeView,
        DeserializeError,
    > {
        match Address::parsed(record.id@) {
            Err(error) => Err(DeserializeError::InvalidAddress(error)),
            Ok(address) => match described_transports(record.transports@) {
                None => Err(DeserializeError::InvalidTransport),
                Some(transports) => Ok(
                    NodeView {
                        address,
                        transports,
                        pending_queries: Map::empty(),
                        has_ever_responded: false,
                        last_received_query: now,
                        last_received_response: now,
                    },
                ),
            },
        }
    }

    /// The node that a record describes, first met at `now`.
    pub fn deserialize_at(message: &protobufs::Node, now: Timestamp) -> (outcome: Result<
        Node,
        DeserializeError,
    >)
        ensures
            match outcome {
                Ok(node) => node.wf() && Node::described(*message, now) == Ok::<
                    NodeView,
                    DeserializeError,
                >(node@),
                Err(error) => Node::described(*message, now) == Err::<NodeView, DeserializeError>(
                    error,
                ),
            },
    {
        let address = match Address::from_str(message.id.as_str()) {
            Ok(address) => address,
            Err(error) => {
                return Err(DeserializeError::InvalidAddress(error));
            },
        };
        let mut transports: Vec<Transport> = Vec::new();
        let mut i: usize = 0;
        while i < message.transports.len()
            invariant
                i <= message.transports.len(),
                transports@.no_duplicates(),
                Address::parsed(message.id@) == Ok::<Address, HexError>(address),
                described_transports(message.transports@.subrange(0, i as int)) == Some(
                    transports@,
                ),
            decreases message.transports.len() - i,
        {
            let ghost read = message.transports@.subrange(0, i as int);
            match Transport::deserialize(&message.transports[i]) {
                Some(transport) => {
                    insert_transport(&mut transports, transport);
                },
                None => {
                    proof {
                        lemma_described_transports_fails(message.transports@, i as int);
                    }
                    return Err(DeserializeError::InvalidTransport);
                },
            }
            i += 1;
            assert(message.transports@.subrange(0, i as int).drop_last() =~= read);
        }
        assert(message.transports@.subrange(0, i as int) =~= message.transports@);
        Ok(
            Node {
                address,
                transports,
                pending_queries: HashMap::new(),
                has_ever_responded: false,
                last_received_query: now,
                last_received_response: now,
            },
        )
    }

    /// How alive the node seems now.
    pub fn status(&self) -> (status: Status)
        ensures
            exists|now: Timestamp| status == self@.status(now),
    {
        self.status_at(Timestamp::now())
    }

    /// How alive the node seems at `now`.
    pub fn status_at(&self, now: Timestamp) -> (status: Status)
        ensures
            status == self@.status(now),
    {
        let last_seen = self.last_seen();
        if self.has_ever_responded && now.is_within_minutes_of(
            &last_seen,
            MINUTES_UNTIL_QUESTIONABLE,
        ) {
            Status::Good
        } else if self.pending_query_count() < FAILED_TO_RESPOND_THRESHOLD {
            Status::Questionable
        } else {
            Status::Bad
        }
    }

    /// Whether the node should be considered bad now. A bad node should not be sent
    /// queries, but it is forgotten only when its bucket is full and another node wants in.
    pub fn is_bad(&self) -> (bad: bool)
        ensures
            exists|now: Timestamp| bad == (self@.status(now) == Status::Bad),
    {
        self.is_bad_at(Timestamp::now())
    }

    /// Whether the node is bad at `now`.
    pub fn is_bad_at(&self, now: Timestamp) -> (bad: bool)
        ensures
            bad == (self@.status(now) == Status::Bad),
    {
        self.status_at(now) == Status::Bad
    }

    /// Whether the node is questionable now and should therefore be pinged.
    pub fn is_questionable(&self) -> (questionable: bool)
        ensures
            exists|now: Timestamp| questionable == (self@.status(now) == Status::Questionable),
    {
        self.is_questionable_at(Timestamp::now())
    }

    /// Whether the node is questionable at `now`.
    pub fn is_questionable_at(&self, now: Timestamp) -> (questionable: bool)
        ensures
            questionable == (self@.status(now) == Status::Questionable),
    {
        self.status_at(now) == Status::Questionable
    }

    /// The last time we received either a query or a response from the node.
    pub fn last_seen(&self) -> (seen: Timestamp)
        ensures
            seen == self@.last_seen(),
    {
        self.last_received_query.latest(self.last_received_response)
    }

    /// How many unanswered queries we've sent to the node.
    pub fn pending_query_count(&self) -> (count: usize)
        ensures
            count == self@.pending_query_count(),
    {
        self.pending_queries.len()
    }

    /// Whether the node has ever answered a query of ours.
    pub fn has_ever_responded(&self) -> (responded: bool)
        ensures
            responded == self@.has_ever_responded,
    {
        self.has_ever_responded
    }

    /// The ways to reach the node.
    pub fn transports(&self) -> (transports: &Vec<Transport>)
        ensures
            transports@ == self@.transports,
    {
        &self.transports
    }

    /// Notes that a query came from the node now.
    pub fn received_query(&mut self, transaction_id: TransactionId)
        ensures
            exists|now: Timestamp| final(self)@ == old(self)@.received_query(now),
    {
        self.received_query_at(transaction_id, Timestamp::now())
    }

    /// Notes that a query came from the node at `now`. The transaction plays no part yet.
    pub fn received_query_at(&mut self, transaction_id: TransactionId, now: Timestamp)
        ensures
            final(self)@ == old(self)@.received_query(now),
    {
        self.last_received_query = now;
    }

    /// Notes that a response came from the node now.
    pub fn received_response(&mut self, transaction_id: TransactionId)
        ensures
            exists|now: Timestamp| final(self)@ == old(self)@.received_response(transaction_id, now),
    {
        self.received_response_at(transaction_id, Timestamp::now())
    }

    /// Notes that a response came from the node at `now`. If we were waiting for it, the node
    /// has responded; if we were not, only the time is kept.
    pub fn received_response_at(&mut self, transaction_id: TransactionId, now: Timestamp)
        ensures
            final(self)@ == old(self)@.received_response(transaction_id, now),
    {
        self.last_received_response = now;
        if self.pending_queries.remove(&transaction_id).is_some() {
            self.has_ever_responded = true;
        }
    }

    /// Records that we're expecting a response from this node for `transaction_id`, as of now.
    pub fn sent_query(&mut self, transaction_id: TransactionId)
        ensures
            exists|now: Timestamp| final(self)@ == old(self)@.sent_query(transaction_id, now),
    {
        self.sent_query_at(transaction_id, Timestamp::now())
    }

    /// Records that we're expecting a response from this node for `transaction_id`, as of
    /// `now`.
    pub fn sent_query_at(&mut self, transaction_id: TransactionId, now: Timestamp)
        ensures
            final(self)@ == old(self)@.sent_query(transaction_id, now),
    {
        self.pending_queries.insert(transaction_id, now);
    }

    /// Takes over the transports of `other_node`, for a node that has come back by another
    /// way.
    pub fn update_connection(&mut self, other_node: Self)
        ensures
            final(self)@ == old(self)@.update_connection(other_node@),
            old(self).wf() ==> final(self).wf(),
    {
        insert_transports(&mut self.transports, &other_node.transports);
        proof {
            if old(self).wf() {
                lemma_with_transports_distinct(old(self)@.transports, other_node@.transports);
            }
        }
    }
}

/// Records of which one describes no transport describe no list of transports.
proof fn lemma_described_transports_fails(records: Seq<protobufs::Transport>, at: int)
    requires
        0 <= at < records.len(),
        Transport::described(records[at]) is None,
    ensures
        described_transports(records) is None,
    decreases records.len(),
{
    if at < records.len() - 1 {
        lemma_described_transports_fails(records.drop_last(), at);
    }
}

impl Serialize for Node {
    open spec fn described_by(&self, record: protobufs::Node) -> bool {
        self@.described_by(record)
    }

    fn serialize(&self) -> (record: protobufs::Node) {
        let mut transports: Vec<protobufs::Transport> = Vec::new();
        let mut i: usize = 0;
        while i < self.transports.len()
            invariant
                i <= self.transports.len(),
                transports@.len() == i,
                forall|j: int|
                    0 <= j < i ==> (#[trigger] self.transports@[j]).described_by(transports@[j]),
            decreases self.transports.len() - i,
        {
            transports.push(self.transports[i].serialize());
            i += 1;
        }
        protobufs::Node { id: self.address.to_str(), transports }
    }
}

impl Addressable for Node {
    open spec fn residence(&self) -> Address {
        self@.address
    }

    fn address(&self) -> (address: Address) {
        self.address
    }
}

} // verus!
