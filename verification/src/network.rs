//! The protocol engine: what a node does when a message or a timer comes in. It changes the
//! routing table and says what is to be sent, scheduled and announced; sending, timing and
//! announcing are left to whoever drives it.

use crate::address::{Address, Addressable};
use crate::messages::incoming::{parse_envelope_at, Message, Query, Response};
use crate::messages::outgoing::{
    copy_transports, create_find_node_query, create_find_node_response, create_packet_query,
    create_packet_response, create_ping_query, create_ping_response, is_find_node_query,
    is_find_node_response, is_packet_query, is_packet_response, is_ping_query, is_ping_response,
    Outgoing,
};
use crate::messages::protobufs::Envelope;
use crate::messages::incoming::{
    all_wf, copy_bytes, message_wf, MessageView, QueryView, ResponseView,
};
use crate::node::{views, DeserializeError, Node, NodeView, Transport};
use crate::node_bucket::Probe;
use crate::routing_table::{
    InsertOutcome, InsertionResult, NodeHandle, RoutingTable, RoutingTableView,
};
use crate::timestamp::Timestamp;
use crate::transaction::{TransactionId, TransactionIdGenerator};
use rand::StdRng;
use std::collections::HashMap;
use vstd::prelude::*;

verus! {

/// The number of nodes that each bucket of the routing table has room for.
pub const BUCKET_SIZE: usize = 8;

/// The number of milliseconds after which a step of the bootstrap, the health check or the
/// refresh is taken again.
pub const STEP_DELAY_MS: u64 = 1000;

/// What the network lets its listeners know.
#[derive(Clone, Debug)]
pub enum Event {
    /// A packet from the node at the address.
    ReceivedPacket(Address, Vec<u8>),
    Shutdown,
    Started,
}

/// Something for the engine to do at once.
pub enum OneshotTask {
    /// Handle the message that came in as these bytes.
    Incoming(Vec<u8>),
    StartBootstrap,
    /// Send the bytes towards the address.
    SendPacket(Address, Vec<u8>),
    Shutdown,
}

/// Something for the engine to do when a timer fires.
#[derive(Clone, Copy, Debug, PartialEq, Eq, Structural)]
pub enum ScheduledTask {
    ContinueBootstrap,
    ContinueHealthCheck,
    ContinueRefresh,
}

/// What a transaction that is under way belongs to.
#[derive(Clone, Copy, Debug, PartialEq, Eq, Structural)]
pub enum TableAction {
    Bootstrap,
    HealthCheck,
    RefreshBucket,
}

/// Whether the node is still finding its place in the network.
#[derive(Clone, Copy, Debug, PartialEq, Eq, Structural)]
pub enum Status {
    Bootstrapping,
    Idle,
}

/// What the engine wants done.
pub enum Effect {
    /// Send the message to the transports that come with it.
    Send(Outgoing),
    /// Let the listeners know.
    Broadcast(Event),
    /// Hand the task back after the delay. Where a transaction is named, the timer belongs to
    /// it and can be cleared by it.
    Schedule { task: ScheduledTask, delay_ms: u64, transaction_id: Option<TransactionId> },
    /// Clear the timer that belongs to the transaction.
    ClearTimeout(TransactionId),
    /// Stop taking tasks.
    Shutdown,
}

/// What is asked of a node.
#[derive(Clone, Copy)]
pub enum Request {
    /// The nodes nearest to the address.
    FindNode(Address),
    /// A sign of life.
    Ping,
}

/// Whether the envelope makes the request, for `origin` and in the given transaction.
pub open spec fn is_request(
    envelope: Envelope,
    transaction_id: TransactionId,
    origin: NodeView,
    request: Request,
) -> bool {
    match request {
        Request::FindNode(target) => is_find_node_query(envelope, transaction_id, origin, target),
        Request::Ping => is_ping_query(envelope, transaction_id, origin),
    }
}

/// Whether the effects are the request sent to each node where the handles point: one
/// message for each, in their order, to the transports that the node has in the table.
pub open spec fn asks(
    effects: Seq<Effect>,
    table: RoutingTableView,
    handles: Seq<NodeHandle>,
    transaction_id: TransactionId,
    origin: NodeView,
    request: Request,
) -> bool {
    &&& effects.len() == handles.len()
    &&& forall|i: int|
        0 <= i < handles.len() ==> ((#[trigger] effects[i]) matches Effect::Send(message)
            && message.transports@ == table.node(handles[i]).transports && is_request(
            message.envelope,
            transaction_id,
            origin,
            request,
        ))
}

/// What the engine knows: the routing table, who we are, and which transactions are under
/// way.
pub struct NetworkView {
    pub routing_table: RoutingTableView,
    pub self_node: NodeView,
    /// The transaction that was opened last.
    pub last_id: TransactionId,
    pub status: Status,
    pub pending_actions: Map<TransactionId, TableAction>,
}

impl NetworkView {
    /// Whether the engine is in order: its table and its own node are, and the table is laid
    /// out around the address of its own node.
    pub open spec fn wf(self) -> bool {
        &&& self.routing_table.wf()
        &&& self.self_node.wf()
        &&& self.routing_table.self_address == self.self_node.address
    }

    /// Whether `after` and `added` are what asking for the nodes nearest to `address` at `now`
    /// gives: a transaction is opened, and in it the query goes to the nodes to turn to, each
    /// of which is noted to have been asked.
    pub open spec fn finds_node(self, after: NetworkView, added: Seq<Effect>, address: Address, now: Timestamp) -> bool {
        let transaction_id = TransactionIdGenerator::successor(self.last_id);
        exists|handles: Seq<NodeHandle>|
            {
                &&& #[trigger] self.routing_table.is_nearest(
                    handles,
                    self.routing_table.self_address,
                    true,
                    now,
                )
                &&& after == (NetworkView {
                    routing_table: self.routing_table.queried_all(handles, transaction_id, now),
                    last_id: transaction_id,
                    ..self
                })
                &&& asks(
                    added,
                    self.routing_table,
                    handles,
                    transaction_id,
                    self.self_node,
                    Request::FindNode(address),
                )
            }
    }
}

impl NetworkView {
    /// The engine after `node` was offered to the table at `now`.
    pub open spec fn inserted(self, node: NodeView, now: Timestamp) -> NetworkView {
        NetworkView {
            routing_table: self.routing_table.insert(node, self.last_id, now).1,
            last_id: TransactionIdGenerator::nth_after(self.last_id, self.insert_probes(node, now).len()),
            ..self
        }
    }

    /// What becomes of `node` when it is offered to the table at `now`.
    pub open spec fn insert_outcome(self, node: NodeView, now: Timestamp) -> InsertionResult {
        self.routing_table.insert(node, self.last_id, now).0
    }

    /// The pings that are due when `node` is offered to the table at `now`.
    pub open spec fn insert_probes(self, node: NodeView, now: Timestamp) -> Seq<Probe> {
        self.routing_table.insert_probes(node, self.last_id, now)
    }

    /// The engine after each of the nodes was offered to the table at `now`, in their order.
    pub open spec fn inserted_all(self, nodes: Seq<NodeView>, now: Timestamp) -> NetworkView
        decreases nodes.len(),
    {
        if nodes.len() == 0 {
            self
        } else {
            self.inserted_all(nodes.drop_last(), now).inserted(nodes.last(), now)
        }
    }

    /// Whether the table takes in any of the nodes as new when they are offered to it at
    /// `now`, in their order.
    pub open spec fn any_inserted(self, nodes: Seq<NodeView>, now: Timestamp) -> bool
        decreases nodes.len(),
    {
        if nodes.len() == 0 {
            false
        } else {
            self.any_inserted(nodes.drop_last(), now) || self.inserted_all(
                nodes.drop_last(),
                now,
            ).insert_outcome(nodes.last(), now) == Ok::<InsertOutcome, crate::node_bucket::NotCovered>(
                InsertOutcome::Inserted,
            )
        }
    }

    /// The pings that are due when the nodes are offered to the table at `now`, in their
    /// order.
    pub open spec fn probes_of_all(self, nodes: Seq<NodeView>, now: Timestamp) -> Seq<Probe>
        decreases nodes.len(),
    {
        if nodes.len() == 0 {
            Seq::empty()
        } else {
            self.probes_of_all(nodes.drop_last(), now) + self.inserted_all(
                nodes.drop_last(),
                now,
            ).insert_probes(nodes.last(), now)
        }
    }

    /// The engine after a query from `origin` came in at `now`: the sender is offered to the
    /// table, and the query is noted with it where the table then holds it.
    pub open spec fn after_query(self, origin: NodeView, now: Timestamp) -> NetworkView {
        let learned = self.inserted(origin, now);
        NetworkView { routing_table: learned.routing_table.noted_query(origin.address, now), ..learned }
    }

    /// The engine after a response from `origin` that names `nodes` came in at `now`: the
    /// sender and then the nodes are offered to the table, and the response is noted with the
    /// sender where the table then holds it.
    pub open spec fn after_response(
        self,
        transaction_id: TransactionId,
        origin: NodeView,
        nodes: Seq<NodeView>,
        now: Timestamp,
    ) -> NetworkView {
        let learned = self.inserted(origin, now).inserted_all(nodes, now);
        NetworkView {
            routing_table: learned.routing_table.noted_response(origin.address, transaction_id, now),
            ..learned
        }
    }

    /// Whether a response from `origin` that names `nodes` makes a node known that was not.
    pub open spec fn learns_new(self, origin: NodeView, nodes: Seq<NodeView>, now: Timestamp) -> bool {
        self.insert_outcome(origin, now) == Ok::<InsertOutcome, crate::node_bucket::NotCovered>(
            InsertOutcome::Inserted,
        ) || self.inserted(origin, now).any_inserted(nodes, now)
    }

    /// The pings that are due when a response from `origin` that names `nodes` comes in.
    pub open spec fn response_probes(self, origin: NodeView, nodes: Seq<NodeView>, now: Timestamp) -> Seq<Probe> {
        self.insert_probes(origin, now) + self.inserted(origin, now).probes_of_all(nodes, now)
    }

    /// Whether `handles` and `after` are what sending a packet towards `recipient` at `now`
    /// comes to: the packet goes to the live nodes nearest to the recipient, to each in a
    /// transaction of its own.
    pub open spec fn sends_packet_to(self, handles: Seq<NodeHandle>, after: NetworkView, recipient: Address, now: Timestamp) -> bool {
        &&& self.routing_table.is_nearest(handles, recipient, false, now)
        &&& after == (NetworkView {
            routing_table: self.routing_table.queried_each(handles, self.last_id, now),
            last_id: TransactionIdGenerator::nth_after(self.last_id, handles.len()),
            ..self
        })
    }

    /// Whether `nearest`, `questionable` and `after` are what a health check at `now` comes
    /// to: in one transaction, the first of the nodes to turn to is pinged, and then every
    /// node that is questionable.
    pub open spec fn checks_health_of(
        self,
        nearest: Seq<NodeHandle>,
        questionable: Seq<NodeHandle>,
        after: NetworkView,
        now: Timestamp,
    ) -> bool {
        let transaction_id = TransactionIdGenerator::successor(self.last_id);
        let first = first_of(nearest);
        let pinged = self.routing_table.queried_all(first, transaction_id, now);
        &&& self.routing_table.is_nearest(nearest, self.routing_table.self_address, true, now)
        &&& pinged.are_questionable(questionable, now)
        &&& after == (NetworkView {
            routing_table: pinged.queried_all(questionable, transaction_id, now),
            last_id: transaction_id,
            ..self
        })
    }

    /// Whether `after` and `added` are what a health check at `now` gives.
    pub open spec fn checks_health(self, after: NetworkView, added: Seq<Effect>, now: Timestamp) -> bool {
        let transaction_id = TransactionIdGenerator::successor(self.last_id);
        exists|nearest: Seq<NodeHandle>, questionable: Seq<NodeHandle>|
            {
                &&& #[trigger] self.checks_health_of(nearest, questionable, after, now)
                &&& asks(
                    added.take(first_of(nearest).len() as int),
                    self.routing_table,
                    first_of(nearest),
                    transaction_id,
                    self.self_node,
                    Request::Ping,
                )
                &&& asks(
                    added.skip(first_of(nearest).len() as int),
                    self.routing_table.queried_all(first_of(nearest), transaction_id, now),
                    questionable,
                    transaction_id,
                    self.self_node,
                    Request::Ping,
                )
            }
    }
}

impl NetworkView {
    /// Whether `after` and `added` are what a step of the bootstrap at `now` gives: our own
    /// address is asked for, a timer is set to take the step again, and the transaction is
    /// noted to belong to the bootstrap.
    pub open spec fn continues_bootstrap(self, after: NetworkView, added: Seq<Effect>, now: Timestamp) -> bool {
        let transaction_id = TransactionIdGenerator::successor(self.last_id);
        &&& added.len() > 0
        &&& self.finds_node(
            NetworkView { pending_actions: self.pending_actions, ..after },
            added.drop_last(),
            self.self_node.address,
            now,
        )
        &&& added.last() == (Effect::Schedule {
            task: ScheduledTask::ContinueBootstrap,
            delay_ms: STEP_DELAY_MS,
            transaction_id: Some(transaction_id),
        })
        &&& after.pending_actions == self.pending_actions.insert(transaction_id, TableAction::Bootstrap)
    }

    /// Whether `after` and `added` are what a step of the health check at `now` gives: the
    /// nodes are checked on, a timer is set to take the step again, and the transaction is
    /// noted to belong to the health check.
    pub open spec fn continues_health_check(self, after: NetworkView, added: Seq<Effect>, now: Timestamp) -> bool {
        let transaction_id = TransactionIdGenerator::successor(self.last_id);
        &&& added.len() > 0
        &&& self.checks_health(
            NetworkView { pending_actions: self.pending_actions, ..after },
            added.drop_last(),
            now,
        )
        &&& added.last() == (Effect::Schedule {
            task: ScheduledTask::ContinueHealthCheck,
            delay_ms: STEP_DELAY_MS,
            transaction_id: Some(transaction_id),
        })
        &&& after.pending_actions == self.pending_actions.insert(
            transaction_id,
            TableAction::HealthCheck,
        )
    }

    /// Whether the address is one to look for in a refresh at `now`: it lies in a bucket that
    /// needs one.
    pub open spec fn is_refresh_target(self, address: Address, now: Timestamp) -> bool {
        exists|i: int|
            0 <= i < self.routing_table.buckets.len() && (#[trigger] self.routing_table.buckets[i]).needs_refresh(
                now,
            ) && self.routing_table.buckets[i].covers(address)
    }

    /// Whether any bucket needs a refresh at `now`.
    pub open spec fn any_stale(self, now: Timestamp) -> bool {
        exists|i: int|
            0 <= i < self.routing_table.buckets.len() && (#[trigger] self.routing_table.buckets[i]).needs_refresh(
                now,
            )
    }

    /// Whether `opened`, `after` and `added` are what a refresh at `now` gives. Either an
    /// address in a bucket that needs a refresh is asked for, in the transaction `opened`; or
    /// nothing happens, as it does where no bucket needs a refresh.
    pub open spec fn refreshes(
        self,
        opened: Option<TransactionId>,
        after: NetworkView,
        added: Seq<Effect>,
        now: Timestamp,
    ) -> bool {
        match opened {
            Some(transaction_id) => {
                &&& transaction_id == TransactionIdGenerator::successor(self.last_id)
                &&& exists|address: Address|
                    #![trigger self.is_refresh_target(address, now)]
                    self.is_refresh_target(address, now) && self.finds_node(after, added, address, now)
            },
            None => after == self && added.len() == 0,
        }
    }

    /// Whether `after` and `added` are what a step of the refresh at `now` gives: a refresh,
    /// and a timer to take the step again; the transaction, if one was opened, is noted to
    /// belong to the refresh.
    pub open spec fn continues_refresh(self, after: NetworkView, added: Seq<Effect>, now: Timestamp) -> bool {
        &&& added.len() > 0
        &&& added.last() matches Effect::Schedule { task, delay_ms, transaction_id: opened }
        &&& task == ScheduledTask::ContinueRefresh
        &&& delay_ms == STEP_DELAY_MS
        &&& self.refreshes(
            opened,
            NetworkView { pending_actions: self.pending_actions, ..after },
            added.drop_last(),
            now,
        )
        &&& after.pending_actions == match opened {
            Some(transaction_id) => self.pending_actions.insert(
                transaction_id,
                TableAction::RefreshBucket,
            ),
            None => self.pending_actions,
        }
        &&& !self.any_stale(now) ==> opened is None
    }

    /// Whether `after` and `added` are how the bootstrap goes on when a response in the
    /// transaction has been taken in. Where the transaction belongs to the bootstrap, its
    /// timer is cleared; the bootstrap takes its next step if the response made a node known,
    /// and otherwise gives way to the health check and the refresh, and the engine is idle.
    /// A transaction that belongs to anything else is done and forgotten.
    pub open spec fn concludes(
        self,
        after: NetworkView,
        added: Seq<Effect>,
        transaction_id: TransactionId,
        learned_new: bool,
        now: Timestamp,
    ) -> bool {
        let settled = NetworkView {
            pending_actions: self.pending_actions.remove(transaction_id),
            ..self
        };
        if self.pending_actions.contains_key(transaction_id) && self.pending_actions[transaction_id]
            == TableAction::Bootstrap {
            &&& added.len() > 0
            &&& added[0] == Effect::ClearTimeout(transaction_id)
            &&& if learned_new {
                settled.continues_bootstrap(after, added.skip(1), now)
            } else {
                &&& after.status == Status::Idle
                &&& exists|checked: NetworkView, cut: int|
                    {
                        &&& 0 <= cut <= added.len() - 1
                        &&& #[trigger] settled.continues_health_check(
                            checked,
                            added.skip(1).take(cut),
                            now,
                        )
                        &&& checked.continues_refresh(
                            NetworkView { status: checked.status, ..after },
                            added.skip(1).skip(cut),
                            now,
                        )
                    }
            }
        } else {
            after == settled && added.len() == 0
        }
    }

    /// Whether the effects begin with the answer to a query from `origin`: for a ping and
    /// for a packet the response that confirms it, the packet first being announced; for a
    /// search the live nodes nearest to the address looked for.
    pub open spec fn answers(
        self,
        added: Seq<Effect>,
        transaction_id: TransactionId,
        origin: NodeView,
        query: QueryView,
        now: Timestamp,
    ) -> bool {
        match query {
            QueryView::Ping => {
                &&& added.len() >= 1
                &&& added[0] matches Effect::Send(message)
                &&& message.transports@ == origin.transports
                &&& is_ping_response(message.envelope, transaction_id, self.self_node)
            },
            QueryView::Packet(payload) => {
                &&& added.len() >= 2
                &&& added[0] matches Effect::Broadcast(Event::ReceivedPacket(sender, bytes))
                &&& sender == origin.address
                &&& bytes@ == payload
                &&& added[1] matches Effect::Send(message)
                &&& message.transports@ == origin.transports
                &&& is_packet_response(message.envelope, transaction_id, self.self_node)
            },
            QueryView::FindNode(target) => {
                &&& added.len() >= 1
                &&& added[0] matches Effect::Send(message)
                &&& message.transports@ == origin.transports
                &&& self.names_nearest(message.envelope, transaction_id, target, now)
            },
        }
    }

    /// Whether the envelope answers a search for `target` at `now`: it names the live nodes
    /// nearest to the target, nearest first.
    pub open spec fn names_nearest(self, envelope: Envelope, transaction_id: TransactionId, target: Address, now: Timestamp) -> bool {
        exists|handles: Seq<NodeHandle>|
            {
                &&& #[trigger] self.routing_table.is_nearest(handles, target, false, now)
                &&& is_find_node_response(
                    envelope,
                    transaction_id,
                    self.self_node,
                    self.routing_table.nodes_at(handles),
                )
            }
    }

    /// How many effects answer a query.
    pub open spec fn answer_len(query: QueryView) -> int {
        match query {
            QueryView::Packet(_) => 2,
            _ => 1,
        }
    }

    /// Whether `after` and `added` are what taking in a message at `now` gives.
    ///
    /// A query is answered; then its sender is offered to the table and the query is noted
    /// with it. A response has its sender and the nodes that it names offered to the table,
    /// and is noted with its sender; a response to a search then concludes its transaction.
    /// Whatever pings the offers to the table give rise to are sent.
    pub open spec fn handles(self, message: MessageView, after: NetworkView, added: Seq<Effect>, now: Timestamp) -> bool {
        match message {
            MessageView::Query(transaction_id, origin, query) => {
                &&& self.answers(added, transaction_id, origin, query, now)
                &&& after == self.after_query(origin, now)
                &&& pings(
                    added.skip(Self::answer_len(query)),
                    self.insert_probes(origin, now),
                    self.self_node,
                )
            },
            MessageView::Response(transaction_id, origin, ResponseView::FindNode(nodes)) => {
                let due = self.response_probes(origin, nodes, now);
                &&& added.len() >= due.len()
                &&& pings(added.take(due.len() as int), due, self.self_node)
                &&& self.after_response(transaction_id, origin, nodes, now).concludes(
                    after,
                    added.skip(due.len() as int),
                    transaction_id,
                    self.learns_new(origin, nodes, now),
                    now,
                )
            },
            MessageView::Response(transaction_id, origin, _) => {
                &&& after == self.after_response(transaction_id, origin, Seq::empty(), now)
                &&& pings(added, self.insert_probes(origin, now), self.self_node)
            },
        }
    }
}

/// The first of the handles alone; nothing where there is none.
pub open spec fn first_of(handles: Seq<NodeHandle>) -> Seq<NodeHandle> {
    if handles.len() > 0 {
        seq![handles[0]]
    } else {
        Seq::empty()
    }
}

/// Whether the effects are the packet sent to each node where the handles point: one message
/// for each, in their order and each in a transaction of its own, to the transports that the
/// node has in the table.
pub open spec fn sends_packets(
    effects: Seq<Effect>,
    table: RoutingTableView,
    handles: Seq<NodeHandle>,
    last_id: TransactionId,
    origin: NodeView,
    payload: Seq<u8>,
) -> bool {
    &&& effects.len() == handles.len()
    &&& forall|i: int|
        0 <= i < handles.len() ==> ((#[trigger] effects[i]) matches Effect::Send(message)
            && message.transports@ == table.node(handles[i]).transports && is_packet_query(
            message.envelope,
            TransactionIdGenerator::nth_after(last_id, (i + 1) as nat),
            origin,
            payload,
        ))
}

/// The protocol engine of a node.
pub struct Network {
    routing_table: RoutingTable,
    self_node: Node,
    transaction_ids: TransactionIdGenerator,
    status: Status,
    pending_actions: HashMap<TransactionId, TableAction>,
}

impl View for Network {
    type V = NetworkView;

    closed spec fn view(&self) -> NetworkView {
        NetworkView {
            routing_table: self.routing_table@,
            self_node: self.self_node@,
            last_id: self.transaction_ids.last_id(),
            status: self.status,
            pending_actions: self.pending_actions@,
        }
    }
}

impl Network {
    /// An engine for the node at `self_address` that can be reached by `transports`, with
    /// `routers` to turn to, as of `now`. It is idle and knows no other node.
    pub fn new(self_address: Address, transports: Vec<Transport>, routers: Vec<Node>, now: Timestamp) -> (network:
        Network)
        requires
            forall|i: int| 0 <= i < routers@.len() ==> (#[trigger] routers@[i]).wf(),
        ensures
            network@.wf(),
            network@.self_node == NodeView::fresh(self_address, transports@, now),
            network@.last_id == 0,
            network@.status == Status::Idle,
            network@.pending_actions == Map::<TransactionId, TableAction>::empty(),
            network@.routing_table.k == BUCKET_SIZE,
            network@.routing_table.routers == views(routers@),
            network@.routing_table.buckets.len() == 1,
            network@.routing_table.buckets[0].nodes == Seq::<NodeView>::empty(),
            network@.routing_table.buckets[0].last_inserted@ == Timestamp::never(),
    {
        let self_node = Node::new_at(self_address, transports, now);
        let routing_table = RoutingTable::new(BUCKET_SIZE, self_address, routers);
        Network {
            routing_table,
            self_node,
            transaction_ids: TransactionIdGenerator::new(),
            status: Status::Idle,
            pending_actions: HashMap::new(),
        }
    }

    /// The routing table.
    pub fn routing_table(&self) -> (table: &RoutingTable)
        ensures
            table@ == self@.routing_table,
    {
        &self.routing_table
    }

    /// Our own node.
    pub fn self_node(&self) -> (node: &Node)
        ensures
            node@ == self@.self_node,
    {
        &self.self_node
    }

    /// Whether the node is still finding its place in the network.
    pub fn status(&self) -> (status: Status)
        ensures
            status == self@.status,
    {
        self.status
    }

    /// Sends the request to each node where the handles point, all in one transaction, and
    /// notes with each that it was asked.
    fn ask_all(
        &mut self,
        handles: &Vec<NodeHandle>,
        transaction_id: TransactionId,
        request: Request,
        effects: &mut Vec<Effect>,
        now: Timestamp,
    )
        requires
            forall|i: int| 0 <= i < handles@.len() ==> old(self)@.routing_table.is_known(#[trigger] handles@[i]),
        ensures
            final(self)@ == (NetworkView {
                routing_table: old(self)@.routing_table.queried_all(handles@, transaction_id, now),
                ..old(self)@
            }),
            old(self)@.wf() ==> final(self)@.wf(),
            final(effects)@.len() == old(effects)@.len() + handles@.len(),
            final(effects)@.take(old(effects)@.len() as int) == old(effects)@,
            asks(
                final(effects)@.skip(old(effects)@.len() as int),
                old(self)@.routing_table,
                handles@,
                transaction_id,
                old(self)@.self_node,
                request,
            ),
            forall|handle: NodeHandle| #[trigger]
                final(self)@.routing_table.is_known(handle) == old(self)@.routing_table.is_known(handle),
    {
        let ghost before = self@;
        let ghost posted = effects@;
        let mut i: usize = 0;
        proof {
            assert(handles@.take(0) =~= Seq::empty());
            assert(effects@.take(posted.len() as int) =~= posted);
            assert(effects@.skip(posted.len() as int) =~= Seq::empty());
        }
        while i < handles.len()
            invariant
                i <= handles.len(),
                forall|j: int| 0 <= j < handles@.len() ==> before.routing_table.is_known(#[trigger] handles@[j]),
                self@ == (NetworkView {
                    routing_table: before.routing_table.queried_all(
                        handles@.take(i as int),
                        transaction_id,
                        now,
                    ),
                    ..before
                }),
                before.wf() ==> self@.wf(),
                forall|handle: NodeHandle| #[trigger]
                    self@.routing_table.is_known(handle) == before.routing_table.is_known(handle),
                forall|handle: NodeHandle|
                    before.routing_table.is_known(handle) ==> (#[trigger] self@.routing_table.node(
                        handle,
                    )).transports == before.routing_table.node(handle).transports
                        && self@.routing_table.node(handle).address == before.routing_table.node(
                        handle,
                    ).address,
                effects@.len() == posted.len() + i,
                effects@.take(posted.len() as int) == posted,
                asks(
                    effects@.skip(posted.len() as int),
                    before.routing_table,
                    handles@.take(i as int),
                    transaction_id,
                    before.self_node,
                    request,
                ),
            decreases handles.len() - i,
        {
            let handle = handles[i];
            let ghost table = self.routing_table@;
            let ghost sent = effects@;
            proof {
                assert(before.routing_table.is_known(handles@[i as int]));
                assert(self@.routing_table == table);
                assert(self@.routing_table.is_known(handle));
                assert(handles@.take(i + 1).drop_last() =~= handles@.take(i as int));
                table.lemma_queried(handle, transaction_id, now);
            }
            let envelope = match request {
                Request::FindNode(target) => create_find_node_query(
                    transaction_id,
                    &self.self_node,
                    &target,
                ),
                Request::Ping => create_ping_query(transaction_id, &self.self_node),
            };
            let node = self.routing_table.node_mut(handle);
            let transports = copy_transports(node.transports());
            node.sent_query_at(transaction_id, now);
            effects.push(Effect::Send(Outgoing { transports, envelope }));
            i += 1;
            proof {
                assert(self.routing_table@ == table.queried(handle, transaction_id, now));
                assert(effects@.skip(posted.len() as int) =~= sent.skip(posted.len() as int).push(
                    effects@.last(),
                ));
                assert(effects@.take(posted.len() as int) =~= sent.take(posted.len() as int));
            }
        }
        proof {
            assert(handles@.take(i as int) =~= handles@);
        }
    }

    /// Offers `node` to the routing table at `now`. The pings that the offer gives rise to
    /// are added to the effects.
    pub fn insert_node(&mut self, node: Node, effects: &mut Vec<Effect>, now: Timestamp) -> (outcome:
        InsertionResult)
        requires
            old(self)@.wf(),
            node.wf(),
        ensures
            final(self)@.wf(),
            !(outcome is Err),
            (outcome, final(self)@.routing_table) == old(self)@.routing_table.insert(
                node@,
                old(self)@.last_id,
                now,
            ),
            final(self)@ == (NetworkView {
                routing_table: final(self)@.routing_table,
                last_id: final(self)@.last_id,
                ..old(self)@
            }),
            final(self)@.last_id == TransactionIdGenerator::nth_after(
                old(self)@.last_id,
                old(self)@.routing_table.insert_probes(node@, old(self)@.last_id, now).len(),
            ),
            final(effects)@.len() == old(effects)@.len() + old(self)@.routing_table.insert_probes(
                node@,
                old(self)@.last_id,
                now,
            ).len(),
            final(effects)@.take(old(effects)@.len() as int) == old(effects)@,
            pings(
                final(effects)@.skip(old(effects)@.len() as int),
                old(self)@.routing_table.insert_probes(node@, old(self)@.last_id, now),
                old(self)@.self_node,
            ),
    {
        let mut outbox: Vec<Outgoing> = Vec::new();
        let outcome = self.routing_table.insert_at(
            node,
            &self.self_node,
            &mut self.transaction_ids,
            &mut outbox,
            now,
        );
        let ghost due = old(self)@.routing_table.insert_probes(node@, old(self)@.last_id, now);
        let ghost posted = effects@;
        proof {
            assert(outbox@.skip(0) =~= outbox@);
            assert(effects@.take(posted.len() as int) =~= posted);
            assert(effects@.skip(posted.len() as int) =~= Seq::empty());
        }
        let ghost messages = outbox@;
        let ghost mut sent: int = 0;
        proof {
            old(self)@.routing_table.lemma_insert_keeps_order(node@, old(self)@.last_id, now);
        }
        while outbox.len() > 0
            invariant
                sent + outbox@.len() == messages.len(),
                0 <= sent,
                outbox@ == messages.skip(sent),
                effects@.len() == posted.len() + sent,
                effects@.take(posted.len() as int) == posted,
                forall|i: int|
                    0 <= i < sent ==> #[trigger] effects@[posted.len() + i] == Effect::Send(messages[i]),
            decreases outbox.len(),
        {
            let ghost before = effects@;
            let message = outbox.remove(0);
            effects.push(Effect::Send(message));
            proof {
                sent = sent + 1;
                assert(outbox@ =~= messages.skip(sent));
                assert(effects@.take(posted.len() as int) =~= before.take(posted.len() as int));
                assert forall|i: int| 0 <= i < sent implies #[trigger] effects@[posted.len() + i]
                    == Effect::Send(messages[i]) by {
                    if i < sent - 1 {
                        assert(effects@[posted.len() + i] == before[posted.len() + i]);
                    }
                }
            }
        }
        proof {
            let added = effects@.skip(posted.len() as int);
            assert forall|i: int| 0 <= i < due.len() implies ((#[trigger] added[i]) matches Effect::Send(
                message,
            ) && message.transports@ == due[i].transports && is_ping_query(
                message.envelope,
                due[i].transaction_id,
                old(self)@.self_node,
            )) by {
                assert(added[i] == effects@[posted.len() + i]);
                assert(messages[i].transports@ == due[i].transports);
            }
        }
        outcome
    }
}

impl Network {
    /// Asks the nodes to turn to for the nodes nearest to `address`: opens a transaction,
    /// sends the query and notes with each node that it was asked. The transaction is
    /// returned.
    pub fn find_node(&mut self, address: &Address, effects: &mut Vec<Effect>, now: Timestamp) -> (transaction_id:
        TransactionId)
        requires
            old(self)@.wf(),
        ensures
            final(self)@.wf(),
            transaction_id == TransactionIdGenerator::successor(old(self)@.last_id),
            final(effects)@.len() >= old(effects)@.len(),
            final(effects)@.take(old(effects)@.len() as int) == old(effects)@,
            old(self)@.finds_node(
                final(self)@,
                final(effects)@.skip(old(effects)@.len() as int),
                *address,
                now,
            ),
    {
        let transaction_id = self.transaction_ids.generate();
        let handles = self.routing_table.nearest_at(now);
        self.ask_all(&handles, transaction_id, Request::FindNode(*address), effects, now);
        transaction_id
    }

    /// Checks on the nodes: opens a transaction and pings the first of the nodes to turn to,
    /// and then every node that is questionable. The transaction is returned.
    pub fn health_check(&mut self, effects: &mut Vec<Effect>, now: Timestamp) -> (transaction_id: TransactionId)
        requires
            old(self)@.wf(),
        ensures
            final(self)@.wf(),
            transaction_id == TransactionIdGenerator::successor(old(self)@.last_id),
            final(effects)@.len() >= old(effects)@.len(),
            final(effects)@.take(old(effects)@.len() as int) == old(effects)@,
            old(self)@.checks_health(
                final(self)@,
                final(effects)@.skip(old(effects)@.len() as int),
                now,
            ),
    {
        let ghost posted = effects@;
        let transaction_id = self.transaction_ids.generate();
        let nearest = self.routing_table.nearest_at(now);
        let mut first: Vec<NodeHandle> = Vec::new();
        if nearest.len() > 0 {
            first.push(nearest[0]);
        }
        assert(first@ =~= first_of(nearest@));
        self.ask_all(&first, transaction_id, Request::Ping, effects, now);
        let ghost pinged = self@;
        let ghost sent = effects@;
        let questionable = self.routing_table.questionable_nodes_at(now);
        self.ask_all(&questionable, transaction_id, Request::Ping, effects, now);
        proof {
            let added = effects@.skip(posted.len() as int);
            assert(added.take(first@.len() as int) =~= sent.skip(posted.len() as int));
            assert(added.skip(first@.len() as int) =~= effects@.skip(sent.len() as int));
            assert(effects@.take(posted.len() as int) =~= sent.take(posted.len() as int));
            assert(old(self)@.checks_health_of(nearest@, questionable@, self@, now));
        }
        transaction_id
    }

    /// Sends the payload towards `recipient`: to each of the live nodes nearest to it, in a
    /// transaction of its own, and notes with each node that it was asked.
    pub fn send_packet(&mut self, recipient: Address, payload: Vec<u8>, effects: &mut Vec<Effect>, now: Timestamp)
        requires
            old(self)@.wf(),
        ensures
            final(self)@.wf(),
            final(effects)@.len() >= old(effects)@.len(),
            final(effects)@.take(old(effects)@.len() as int) == old(effects)@,
            exists|handles: Seq<NodeHandle>|
                {
                    &&& #[trigger] old(self)@.sends_packet_to(handles, final(self)@, recipient, now)
                    &&& sends_packets(
                        final(effects)@.skip(old(effects)@.len() as int),
                        old(self)@.routing_table,
                        handles,
                        old(self)@.last_id,
                        old(self)@.self_node,
                        payload@,
                    )
                },
    {
        let ghost before = self@;
        let ghost posted = effects@;
        let handles = self.routing_table.nearest_live_nodes_to_at(&recipient, false, now);
        let mut i: usize = 0;
        proof {
            assert(handles@.take(0) =~= Seq::empty());
            assert(effects@.take(posted.len() as int) =~= posted);
            assert(effects@.skip(posted.len() as int) =~= Seq::empty());
            TransactionIdGenerator::lemma_nth_after_step(before.last_id, 0);
        }
        while i < handles.len()
            invariant
                i <= handles.len(),
                forall|j: int| 0 <= j < handles@.len() ==> before.routing_table.is_known(#[trigger] handles@[j]),
                self@ == (NetworkView {
                    routing_table: before.routing_table.queried_each(
                        handles@.take(i as int),
                        before.last_id,
                        now,
                    ),
                    last_id: TransactionIdGenerator::nth_after(before.last_id, i as nat),
                    ..before
                }),
                before.wf(),
                self@.wf(),
                forall|handle: NodeHandle| #[trigger]
                    self@.routing_table.is_known(handle) == before.routing_table.is_known(handle),
                forall|handle: NodeHandle|
                    before.routing_table.is_known(handle) ==> (#[trigger] self@.routing_table.node(
                        handle,
                    )).transports == before.routing_table.node(handle).transports
                        && self@.routing_table.node(handle).address == before.routing_table.node(
                        handle,
                    ).address,
                effects@.len() == posted.len() + i,
                effects@.take(posted.len() as int) == posted,
                sends_packets(
                    effects@.skip(posted.len() as int),
                    before.routing_table,
                    handles@.take(i as int),
                    before.last_id,
                    before.self_node,
                    payload@,
                ),
            decreases handles.len() - i,
        {
            let handle = handles[i];
            let ghost table = self.routing_table@;
            let ghost sent = effects@;
            proof {
                assert(before.routing_table.is_known(handles@[i as int]));
                assert(self@.routing_table == table);
                assert(self@.routing_table.is_known(handle));
                assert(handles@.take(i + 1).drop_last() =~= handles@.take(i as int));
                TransactionIdGenerator::lemma_nth_after_step(before.last_id, i as nat);
            }
            let transaction_id = self.transaction_ids.generate();
            proof {
                table.lemma_queried(handle, transaction_id, now);
            }
            let envelope = create_packet_query(transaction_id, &self.self_node, copy_bytes(&payload));
            let node = self.routing_table.node_mut(handle);
            let transports = copy_transports(node.transports());
            node.sent_query_at(transaction_id, now);
            effects.push(Effect::Send(Outgoing { transports, envelope }));
            i += 1;
            proof {
                assert(self.routing_table@ == table.queried(handle, transaction_id, now));
                assert(effects@.skip(posted.len() as int) =~= sent.skip(posted.len() as int).push(
                    effects@.last(),
                ));
                assert(effects@.take(posted.len() as int) =~= sent.take(posted.len() as int));
            }
        }
        proof {
            assert(handles@.take(i as int) =~= handles@);
            assert(before.sends_packet_to(handles@, self@, recipient, now));
        }
    }

    /// Offers each of the nodes to the routing table at `now`, in their order, and says
    /// whether the table took any of them in as new.
    pub fn insert_nodes(&mut self, nodes: Vec<Node>, effects: &mut Vec<Effect>, now: Timestamp) -> (any_new: bool)
        requires
            old(self)@.wf(),
            forall|i: int| 0 <= i < nodes@.len() ==> (#[trigger] nodes@[i]).wf(),
        ensures
            final(self)@.wf(),
            final(self)@ == old(self)@.inserted_all(views(nodes@), now),
            any_new == old(self)@.any_inserted(views(nodes@), now),
            final(effects)@.len() >= old(effects)@.len(),
            final(effects)@.take(old(effects)@.len() as int) == old(effects)@,
            pings(
                final(effects)@.skip(old(effects)@.len() as int),
                old(self)@.probes_of_all(views(nodes@), now),
                old(self)@.self_node,
            ),
    {
        let ghost before = self@;
        let ghost posted = effects@;
        let ghost all = views(nodes@);
        let mut nodes = nodes;
        let mut any_new = false;
        let ghost mut offered: int = 0;
        proof {
            assert(all.take(0) =~= Seq::empty());
            assert(all.skip(0) =~= all);
            assert(effects@.take(posted.len() as int) =~= posted);
            assert(effects@.skip(posted.len() as int) =~= Seq::empty());
            assert(before.self_node == before.inserted_all(all.take(0), now).self_node);
        }
        while nodes.len() > 0
            invariant
                0 <= offered <= all.len(),
                views(nodes@) == all.skip(offered),
                forall|i: int| 0 <= i < nodes@.len() ==> (#[trigger] nodes@[i]).wf(),
                self@.wf(),
                self@ == before.inserted_all(all.take(offered), now),
                self@.self_node == before.self_node,
                any_new == before.any_inserted(all.take(offered), now),
                effects@.len() >= posted.len(),
                effects@.take(posted.len() as int) == posted,
                pings(
                    effects@.skip(posted.len() as int),
                    before.probes_of_all(all.take(offered), now),
                    before.self_node,
                ),
            decreases nodes.len(),
        {
            let ghost waiting = nodes@;
            let ghost sent = effects@;
            let ghost state = self@;
            let node = nodes.remove(0);
            proof {
                assert(waiting[0].wf());
                assert(views(waiting).len() == waiting.len());
                assert(all.skip(offered).len() == all.len() - offered);
                assert(views(waiting)[0] == all.skip(offered)[0]);
                assert(node@ == all[offered]);
                assert(views(nodes@) =~= views(waiting).remove(0));
                assert(views(waiting).remove(0) =~= all.skip(offered + 1));
                assert(all.take(offered + 1).drop_last() =~= all.take(offered));
                assert forall|i: int| 0 <= i < nodes@.len() implies (#[trigger] nodes@[i]).wf() by {
                    assert(waiting[i + 1].wf());
                }
            }
            match self.insert_node(node, effects, now) {
                Ok(InsertOutcome::Inserted) => {
                    any_new = true;
                },
                _ => {},
            }
            proof {
                offered = offered + 1;
                let due_before = before.probes_of_all(all.take(offered - 1), now);
                let due_now = state.insert_probes(node@, now);
                let added = effects@.skip(posted.len() as int);
                assert(effects@.take(posted.len() as int) =~= sent.take(posted.len() as int));
                assert(before.probes_of_all(all.take(offered), now) == due_before + due_now);
                assert forall|i: int| 0 <= i < (due_before + due_now).len() implies ((#[trigger] added[i]) matches Effect::Send(
                    message,
                ) && message.transports@ == (due_before + due_now)[i].transports && is_ping_query(
                    message.envelope,
                    (due_before + due_now)[i].transaction_id,
                    before.self_node,
                )) by {
                    if i < due_before.len() {
                        assert(added[i] == sent.skip(posted.len() as int)[i]);
                    } else {
                        assert(added[i] == effects@.skip(sent.len() as int)[i - due_before.len()]);
                    }
                }
            }
        }
        proof {
            assert(all.take(offered) =~= all);
        }
        any_new
    }
}

impl Network {
    /// Takes a step of the bootstrap: asks for our own address, sets a timer to take the step
    /// again, and notes that the transaction belongs to the bootstrap.
    pub fn continue_bootstrap(&mut self, effects: &mut Vec<Effect>, now: Timestamp)
        requires
            old(self)@.wf(),
        ensures
            final(self)@.wf(),
            final(effects)@.len() >= old(effects)@.len(),
            final(effects)@.take(old(effects)@.len() as int) == old(effects)@,
            old(self)@.continues_bootstrap(
                final(self)@,
                final(effects)@.skip(old(effects)@.len() as int),
                now,
            ),
    {
        let ghost posted = effects@;
        let address = self.self_node.address();
        let transaction_id = self.find_node(&address, effects, now);
        let ghost found = self@;
        let ghost sent = effects@;
        effects.push(
            Effect::Schedule {
                task: ScheduledTask::ContinueBootstrap,
                delay_ms: STEP_DELAY_MS,
                transaction_id: Some(transaction_id),
            },
        );
        self.pending_actions.insert(transaction_id, TableAction::Bootstrap);
        proof {
            let added = effects@.skip(posted.len() as int);
            assert(added.drop_last() =~= sent.skip(posted.len() as int));
            assert(effects@.take(posted.len() as int) =~= sent.take(posted.len() as int));
            assert((NetworkView { pending_actions: old(self)@.pending_actions, ..self@ }) == found);
        }
    }

    /// Takes a step of the health check: checks on the nodes, sets a timer to take the step
    /// again, and notes that the transaction belongs to the health check.
    pub fn continue_health_check(&mut self, effects: &mut Vec<Effect>, now: Timestamp)
        requires
            old(self)@.wf(),
        ensures
            final(self)@.wf(),
            final(effects)@.len() >= old(effects)@.len(),
            final(effects)@.take(old(effects)@.len() as int) == old(effects)@,
            old(self)@.continues_health_check(
                final(self)@,
                final(effects)@.skip(old(effects)@.len() as int),
                now,
            ),
    {
        let ghost posted = effects@;
        let transaction_id = self.health_check(effects, now);
        let ghost checked = self@;
        let ghost sent = effects@;
        effects.push(
            Effect::Schedule {
                task: ScheduledTask::ContinueHealthCheck,
                delay_ms: STEP_DELAY_MS,
                transaction_id: Some(transaction_id),
            },
        );
        self.pending_actions.insert(transaction_id, TableAction::HealthCheck);
        proof {
            let added = effects@.skip(posted.len() as int);
            assert(added.drop_last() =~= sent.skip(posted.len() as int));
            assert(effects@.take(posted.len() as int) =~= sent.take(posted.len() as int));
            assert((NetworkView { pending_actions: old(self)@.pending_actions, ..self@ }) == checked);
        }
    }

    /// An address to look for in a refresh at `now`: a random one in a bucket that needs a
    /// refresh, itself picked at random. Nothing where no bucket needs one, or where the
    /// operating system has no randomness to give.
    pub fn address_to_find_for_refresh(&self, now: Timestamp) -> (target: Option<Address>)
        requires
            self@.wf(),
        ensures
            target matches Some(address) ==> self@.is_refresh_target(address, now),
            !self@.any_stale(now) ==> target is None,
    {
        match self.routing_table.bucket_needing_refresh_at(now) {
            Some(bucket) => {
                proof {
                    lemma_pick_is_in_space(self@.routing_table, bucket@, now);
                }
                bucket.random_address_in_space()
            },
            None => None,
        }
    }

    /// An address to look for in a refresh at `now`, drawn with the generator: a random one in
    /// a bucket that needs a refresh, itself picked at random. There is one wherever a bucket
    /// needs a refresh.
    pub fn address_to_find_for_refresh_with(&self, generator: &mut StdRng, now: Timestamp) -> (target:
        Option<Address>)
        requires
            self@.wf(),
        ensures
            target is Some <==> self@.any_stale(now),
            target matches Some(address) ==> self@.is_refresh_target(address, now),
    {
        match self.routing_table.bucket_needing_refresh_with(generator, now) {
            Some(bucket) => {
                proof {
                    lemma_pick_is_in_space(self@.routing_table, bucket@, now);
                }
                Some(bucket.random_address_in_space_with(generator))
            },
            None => None,
        }
    }

    /// Refreshes a bucket that needs it: asks for a random address in its range. The
    /// transaction is returned; nothing is, where nothing was asked.
    pub fn refresh_bucket(&mut self, effects: &mut Vec<Effect>, now: Timestamp) -> (opened: Option<
        TransactionId,
    >)
        requires
            old(self)@.wf(),
        ensures
            final(self)@.wf(),
            final(effects)@.len() >= old(effects)@.len(),
            final(effects)@.take(old(effects)@.len() as int) == old(effects)@,
            old(self)@.refreshes(
                opened,
                final(self)@,
                final(effects)@.skip(old(effects)@.len() as int),
                now,
            ),
            !old(self)@.any_stale(now) ==> opened is None,
    {
        proof {
            assert(effects@.take(effects@.len() as int) =~= effects@);
        }
        match self.address_to_find_for_refresh(now) {
            Some(address) => Some(self.find_node(&address, effects, now)),
            None => None,
        }
    }

    /// Takes a step of the refresh: refreshes a bucket that needs it and sets a timer to take
    /// the step again. The transaction, if one was opened, is noted to belong to the refresh.
    pub fn continue_refresh(&mut self, effects: &mut Vec<Effect>, now: Timestamp)
        requires
            old(self)@.wf(),
        ensures
            final(self)@.wf(),
            final(effects)@.len() >= old(effects)@.len(),
            final(effects)@.take(old(effects)@.len() as int) == old(effects)@,
            old(self)@.continues_refresh(
                final(self)@,
                final(effects)@.skip(old(effects)@.len() as int),
                now,
            ),
    {
        let ghost posted = effects@;
        let opened = self.refresh_bucket(effects, now);
        let ghost refreshed = self@;
        let ghost sent = effects@;
        effects.push(
            Effect::Schedule {
                task: ScheduledTask::ContinueRefresh,
                delay_ms: STEP_DELAY_MS,
                transaction_id: opened,
            },
        );
        match opened {
            Some(transaction_id) => {
                self.pending_actions.insert(transaction_id, TableAction::RefreshBucket);
            },
            None => {},
        }
        proof {
            let added = effects@.skip(posted.len() as int);
            assert(added.drop_last() =~= sent.skip(posted.len() as int));
            assert(effects@.take(posted.len() as int) =~= sent.take(posted.len() as int));
            assert((NetworkView { pending_actions: old(self)@.pending_actions, ..self@ }) == refreshed);
        }
    }

    /// Starts the bootstrap: takes its first step and lets the listeners know that the
    /// network has started.
    pub fn start_bootstrap(&mut self, effects: &mut Vec<Effect>, now: Timestamp)
        requires
            old(self)@.wf(),
        ensures
            final(self)@.wf(),
            final(effects)@.len() > old(effects)@.len(),
            final(effects)@.take(old(effects)@.len() as int) == old(effects)@,
            final(effects)@.last() == Effect::Broadcast(Event::Started),
            (NetworkView { status: Status::Bootstrapping, ..old(self)@ }).continues_bootstrap(
                final(self)@,
                final(effects)@.skip(old(effects)@.len() as int).drop_last(),
                now,
            ),
    {
        let ghost posted = effects@;
        self.status = Status::Bootstrapping;
        self.continue_bootstrap(effects, now);
        let ghost sent = effects@;
        effects.push(Effect::Broadcast(Event::Started));
        proof {
            assert(effects@.skip(posted.len() as int).drop_last() =~= sent.skip(posted.len() as int));
            assert(effects@.take(posted.len() as int) =~= sent.take(posted.len() as int));
        }
    }

    /// Shuts down: no more tasks are to be taken, and the listeners are to know.
    pub fn shutdown(&mut self, effects: &mut Vec<Effect>)
        ensures
            final(self)@ == old(self)@,
            final(effects)@ == old(effects)@.push(Effect::Shutdown).push(
                Effect::Broadcast(Event::Shutdown),
            ),
    {
        effects.push(Effect::Shutdown);
        effects.push(Effect::Broadcast(Event::Shutdown));
    }

    /// Does what is due when the timer of a task fires at `now`.
    pub fn timeout(&mut self, task: ScheduledTask, effects: &mut Vec<Effect>, now: Timestamp)
        requires
            old(self)@.wf(),
        ensures
            final(self)@.wf(),
            final(effects)@.len() >= old(effects)@.len(),
            final(effects)@.take(old(effects)@.len() as int) == old(effects)@,
            match task {
                ScheduledTask::ContinueBootstrap => old(self)@.continues_bootstrap(
                    final(self)@,
                    final(effects)@.skip(old(effects)@.len() as int),
                    now,
                ),
                ScheduledTask::ContinueHealthCheck => old(self)@.continues_health_check(
                    final(self)@,
                    final(effects)@.skip(old(effects)@.len() as int),
                    now,
                ),
                ScheduledTask::ContinueRefresh => old(self)@.continues_refresh(
                    final(self)@,
                    final(effects)@.skip(old(effects)@.len() as int),
                    now,
                ),
            },
    {
        match task {
            ScheduledTask::ContinueBootstrap => self.continue_bootstrap(effects, now),
            ScheduledTask::ContinueHealthCheck => self.continue_health_check(effects, now),
            ScheduledTask::ContinueRefresh => self.continue_refresh(effects, now),
        }
    }
}

impl Network {
    /// Answers a search: sends `origin` the live nodes nearest to `target`.
    fn answer_find_node(
        &self,
        transaction_id: TransactionId,
        origin: &Node,
        target: &Address,
        effects: &mut Vec<Effect>,
        now: Timestamp,
    )
        requires
            self@.wf(),
        ensures
            final(effects)@.len() == old(effects)@.len() + 1,
            final(effects)@.take(old(effects)@.len() as int) == old(effects)@,
            self@.answers(
                final(effects)@.skip(old(effects)@.len() as int),
                transaction_id,
                origin@,
                QueryView::FindNode(*target),
                now,
            ),
    {
        let ghost posted = effects@;
        let handles = self.routing_table.nearest_live_nodes_to_at(target, false, now);
        let mut nodes: Vec<&Node> = Vec::new();
        let mut i: usize = 0;
        while i < handles.len()
            invariant
                i <= handles.len(),
                nodes@.len() == i,
                forall|j: int| 0 <= j < handles@.len() ==> self@.routing_table.is_known(#[trigger] handles@[j]),
                forall|j: int| 0 <= j < i ==> (#[trigger] nodes@[j])@ == self@.routing_table.node(handles@[j]),
            decreases handles.len() - i,
        {
            nodes.push(self.routing_table.node(handles[i]));
            i += 1;
        }
        let envelope = create_find_node_response(transaction_id, &self.self_node, &nodes);
        let transports = copy_transports(origin.transports());
        proof {
            assert(Seq::new(nodes@.len(), |i: int| nodes@[i]@) =~= self@.routing_table.nodes_at(
                handles@,
            ));
            assert(is_find_node_response(
                envelope,
                transaction_id,
                self@.self_node,
                self@.routing_table.nodes_at(handles@),
            ));
            assert(self@.routing_table.is_nearest(handles@, *target, false, now));
            assert(self@.names_nearest(envelope, transaction_id, *target, now));
        }
        effects.push(Effect::Send(Outgoing { transports, envelope }));
        proof {
            let added = effects@.skip(posted.len() as int);
            assert(effects@.take(posted.len() as int) =~= posted);
            assert(added[0] == effects@[posted.len() as int]);
            assert(added[0] matches Effect::Send(message) && message.envelope == envelope
                && message.transports@ == origin@.transports);
            assert(self@.answers(added, transaction_id, origin@, QueryView::FindNode(*target), now));
        }
    }

    /// Answers a query from `origin`.
    fn answer(
        &self,
        transaction_id: TransactionId,
        origin: &Node,
        query: Query,
        effects: &mut Vec<Effect>,
        now: Timestamp,
    )
        requires
            self@.wf(),
        ensures
            final(effects)@.len() == old(effects)@.len() + NetworkView::answer_len(query@),
            final(effects)@.take(old(effects)@.len() as int) == old(effects)@,
            self@.answers(
                final(effects)@.skip(old(effects)@.len() as int),
                transaction_id,
                origin@,
                query@,
                now,
            ),
    {
        let ghost posted = effects@;
        match query {
            Query::FindNode(target) => {
                self.answer_find_node(transaction_id, origin, &target, effects, now);
            },
            Query::Packet(payload) => {
                effects.push(Effect::Broadcast(Event::ReceivedPacket(origin.address(), payload)));
                let envelope = create_packet_response(transaction_id, &self.self_node);
                effects.push(
                    Effect::Send(
                        Outgoing { transports: copy_transports(origin.transports()), envelope },
                    ),
                );
                proof {
                    assert(effects@.take(posted.len() as int) =~= posted);
                    assert(effects@.skip(posted.len() as int)[0] == effects@[posted.len() as int]);
                    assert(effects@.skip(posted.len() as int)[1] == effects@[posted.len() as int + 1]);
                }
            },
            Query::Ping => {
                let envelope = create_ping_response(transaction_id, &self.self_node);
                effects.push(
                    Effect::Send(
                        Outgoing { transports: copy_transports(origin.transports()), envelope },
                    ),
                );
                proof {
                    assert(effects@.take(posted.len() as int) =~= posted);
                    assert(effects@.skip(posted.len() as int)[0] == effects@[posted.len() as int]);
                }
            },
        }
    }

    /// Goes on with the bootstrap when a response to a search in the transaction has been
    /// taken in. `learned_new` says whether the response made a node known.
    fn conclude(&mut self, transaction_id: TransactionId, learned_new: bool, effects: &mut Vec<Effect>, now: Timestamp)
        requires
            old(self)@.wf(),
        ensures
            final(self)@.wf(),
            final(effects)@.len() >= old(effects)@.len(),
            final(effects)@.take(old(effects)@.len() as int) == old(effects)@,
            old(self)@.concludes(
                final(self)@,
                final(effects)@.skip(old(effects)@.len() as int),
                transaction_id,
                learned_new,
                now,
            ),
    {
        let ghost posted = effects@;
        proof {
            assert(effects@.take(posted.len() as int) =~= posted);
        }
        match self.pending_actions.remove(&transaction_id) {
            Some(TableAction::Bootstrap) => {
                let ghost settled = self@;
                effects.push(Effect::ClearTimeout(transaction_id));
                let ghost cleared = effects@;
                if learned_new {
                    self.continue_bootstrap(effects, now);
                    proof {
                        let added = effects@.skip(posted.len() as int);
                        assert(added.skip(1) =~= effects@.skip(cleared.len() as int));
                        assert(effects@.take(posted.len() as int) =~= cleared.take(
                            posted.len() as int,
                        ));
                        assert(added[0] == cleared[posted.len() as int]);
                    }
                } else {
                    self.continue_health_check(effects, now);
                    let ghost checked = self@;
                    let ghost sent = effects@;
                    self.continue_refresh(effects, now);
                    self.status = Status::Idle;
                    proof {
                        let added = effects@.skip(posted.len() as int);
                        let cut = sent.len() - cleared.len();
                        assert(added.skip(1).take(cut) =~= sent.skip(cleared.len() as int));
                        assert(added.skip(1).skip(cut) =~= effects@.skip(sent.len() as int));
                        assert(effects@.take(posted.len() as int) =~= cleared.take(
                            posted.len() as int,
                        ));
                        assert(added[0] == cleared[posted.len() as int]);
                        assert(settled.continues_health_check(checked, added.skip(1).take(cut), now));
                        assert((NetworkView { status: checked.status, ..self@ }).wf());
                    }
                }
            },
            _ => {
                proof {
                    assert(effects@.skip(posted.len() as int) =~= Seq::empty());
                }
            },
        }
    }

    /// Offers the sender of a query to the table and notes the query with it, where the table
    /// then holds it.
    fn note_query(&mut self, origin: Node, transaction_id: TransactionId, effects: &mut Vec<Effect>, now: Timestamp)
        requires
            old(self)@.wf(),
            origin.wf(),
        ensures
            final(self)@.wf(),
            final(self)@ == old(self)@.after_query(origin@, now),
            final(effects)@.len() >= old(effects)@.len(),
            final(effects)@.take(old(effects)@.len() as int) == old(effects)@,
            pings(
                final(effects)@.skip(old(effects)@.len() as int),
                old(self)@.insert_probes(origin@, now),
                old(self)@.self_node,
            ),
    {
        let ghost before = self@;
        let origin_address = origin.address();
        let _ = self.insert_node(origin, effects, now);
        proof {
            assert(self@ == before.inserted(origin@, now));
        }
        match self.routing_table.find_node(&origin_address) {
            Some(node) => {
                node.received_query_at(transaction_id, now);
            },
            None => {},
        }
    }

    /// Takes in a query that came in at `now`.
    fn handle_query(
        &mut self,
        transaction_id: TransactionId,
        origin: Node,
        query: Query,
        effects: &mut Vec<Effect>,
        now: Timestamp,
    )
        requires
            old(self)@.wf(),
            origin.wf(),
        ensures
            final(self)@.wf(),
            final(effects)@.len() >= old(effects)@.len(),
            final(effects)@.take(old(effects)@.len() as int) == old(effects)@,
            old(self)@.answers(
                final(effects)@.skip(old(effects)@.len() as int),
                transaction_id,
                origin@,
                query@,
                now,
            ),
            final(self)@ == old(self)@.after_query(origin@, now),
            pings(
                final(effects)@.skip(old(effects)@.len() as int).skip(NetworkView::answer_len(query@)),
                old(self)@.insert_probes(origin@, now),
                old(self)@.self_node,
            ),
    {
        let ghost posted = effects@;
        let ghost before = self@;
        let ghost asked = query@;
        self.answer(transaction_id, &origin, query, effects, now);
        let ghost answered = effects@;
        self.note_query(origin, transaction_id, effects, now);
        proof {
            let added = effects@.skip(posted.len() as int);
            let reply = answered.skip(posted.len() as int);
            assert(effects@.take(posted.len() as int) =~= answered.take(posted.len() as int));
            assert(added.skip(NetworkView::answer_len(asked)) =~= effects@.skip(
                answered.len() as int,
            ));
            assert(added.take(NetworkView::answer_len(asked)) =~= reply);
            lemma_answers_by_prefix(before, reply, added, transaction_id, origin@, asked, now);
        }
    }

    /// Notes with the node at the address, if the table holds it, that a response from it
    /// came in at `now`.
    fn note_response(&mut self, address: &Address, transaction_id: TransactionId, now: Timestamp)
        requires
            old(self)@.wf(),
        ensures
            final(self)@.wf(),
            final(self)@ == (NetworkView {
                routing_table: old(self)@.routing_table.noted_response(*address, transaction_id, now),
                ..old(self)@
            }),
    {
        match self.routing_table.find_node(address) {
            Some(node) => {
                node.received_response_at(transaction_id, now);
            },
            None => {},
        }
    }

    /// Takes in a response to a search that came in at `now`.
    fn handle_find_node_response(
        &mut self,
        transaction_id: TransactionId,
        origin: Node,
        nodes: Vec<Node>,
        effects: &mut Vec<Effect>,
        now: Timestamp,
    )
        requires
            old(self)@.wf(),
            origin.wf(),
            forall|i: int| 0 <= i < nodes@.len() ==> (#[trigger] nodes@[i]).wf(),
        ensures
            final(self)@.wf(),
            final(effects)@.len() >= old(effects)@.len(),
            final(effects)@.take(old(effects)@.len() as int) == old(effects)@,
            old(self)@.handles(
                MessageView::Response(transaction_id, origin@, ResponseView::FindNode(views(nodes@))),
                final(self)@,
                final(effects)@.skip(old(effects)@.len() as int),
                now,
            ),
    {
        let ghost posted = effects@;
        let ghost before = self@;
        let ghost named = views(nodes@);
        let origin_address = origin.address();
        let outcome = self.insert_node(origin, effects, now);
        let ghost met = self@;
        let ghost first = effects@;
        let mut learned_new = match outcome {
            Ok(InsertOutcome::Inserted) => true,
            _ => false,
        };
        proof {
            assert(met == before.inserted(origin@, now));
        }
        if self.insert_nodes(nodes, effects, now) {
            learned_new = true;
        }
        let ghost second = effects@;
        self.note_response(&origin_address, transaction_id, now);
        let ghost due = before.response_probes(origin@, named, now);
        proof {
            let due_first = before.insert_probes(origin@, now);
            assert(self@ == before.after_response(transaction_id, origin@, named, now));
            assert(second.len() == posted.len() + due.len());
            assert(second.take(posted.len() as int) =~= first.take(posted.len() as int));
            assert forall|i: int| 0 <= i < due.len() implies ((#[trigger] second.skip(
                posted.len() as int,
            )[i]) matches Effect::Send(message) && message.transports@ == due[i].transports
                && is_ping_query(message.envelope, due[i].transaction_id, before.self_node)) by {
                if i < due_first.len() {
                    assert(second.skip(posted.len() as int)[i] == first.skip(posted.len() as int)[i]);
                } else {
                    assert(second.skip(posted.len() as int)[i] == second.skip(first.len() as int)[i
                        - due_first.len()]);
                }
            }
            assert(pings(second.skip(posted.len() as int), due, before.self_node));
        }
        self.conclude(transaction_id, learned_new, effects, now);
        proof {
            let added = effects@.skip(posted.len() as int);
            assert(added.take(due.len() as int) =~= second.skip(posted.len() as int));
            assert(added.skip(due.len() as int) =~= effects@.skip(second.len() as int));
            assert(effects@.take(posted.len() as int) =~= second.take(posted.len() as int));
        }
    }

    /// Takes in a response that names no nodes and came in at `now`.
    fn handle_plain_response(
        &mut self,
        transaction_id: TransactionId,
        origin: Node,
        effects: &mut Vec<Effect>,
        now: Timestamp,
    )
        requires
            old(self)@.wf(),
            origin.wf(),
        ensures
            final(self)@.wf(),
            final(effects)@.len() >= old(effects)@.len(),
            final(effects)@.take(old(effects)@.len() as int) == old(effects)@,
            final(self)@ == old(self)@.after_response(transaction_id, origin@, Seq::empty(), now),
            pings(
                final(effects)@.skip(old(effects)@.len() as int),
                old(self)@.insert_probes(origin@, now),
                old(self)@.self_node,
            ),
    {
        let ghost before = self@;
        let origin_address = origin.address();
        let _ = self.insert_node(origin, effects, now);
        proof {
            assert(self@ == before.inserted(origin@, now));
            assert(self@.inserted_all(Seq::empty(), now) == self@);
        }
        self.note_response(&origin_address, transaction_id, now);
    }

    /// Takes in a message that came in at `now`.
    pub fn handle_incoming(&mut self, message: Message, effects: &mut Vec<Effect>, now: Timestamp)
        requires
            old(self)@.wf(),
            message_wf(message@),
        ensures
            final(self)@.wf(),
            final(effects)@.len() >= old(effects)@.len(),
            final(effects)@.take(old(effects)@.len() as int) == old(effects)@,
            old(self)@.handles(
                message@,
                final(self)@,
                final(effects)@.skip(old(effects)@.len() as int),
                now,
            ),
    {
        let ghost said = message@;
        match message {
            Message::Query(transaction_id, origin, query) => {
                self.handle_query(transaction_id, origin, query, effects, now);
            },
            Message::Response(transaction_id, origin, Response::FindNode(nodes)) => {
                proof {
                    let named = views(nodes@);
                    assert(said == MessageView::Response(
                        transaction_id,
                        origin@,
                        ResponseView::FindNode(named),
                    ));
                    assert(all_wf(named));
                    assert forall|i: int| 0 <= i < nodes@.len() implies (#[trigger] nodes@[i]).wf() by {
                        assert(named[i].wf());
                    }
                }
                self.handle_find_node_response(transaction_id, origin, nodes, effects, now);
            },
            Message::Response(transaction_id, origin, _) => {
                self.handle_plain_response(transaction_id, origin, effects, now);
            },
        }
    }

    /// Takes in the message of an envelope that came in at `now`. An envelope that holds no
    /// message in order is dropped, and the reason returned.
    pub fn handle_envelope(&mut self, envelope: &Envelope, effects: &mut Vec<Effect>, now: Timestamp) -> (outcome:
        Result<(), DeserializeError>)
        requires
            old(self)@.wf(),
        ensures
            final(self)@.wf(),
            final(effects)@.len() >= old(effects)@.len(),
            final(effects)@.take(old(effects)@.len() as int) == old(effects)@,
            match crate::messages::incoming::parsed(*envelope, now) {
                Ok(message) => outcome is Ok && old(self)@.handles(
                    message,
                    final(self)@,
                    final(effects)@.skip(old(effects)@.len() as int),
                    now,
                ),
                Err(error) => outcome == Err::<(), DeserializeError>(error) && final(self)@ == old(
                    self,
                )@ && final(effects)@ == old(effects)@,
            },
    {
        proof {
            assert(effects@.take(effects@.len() as int) =~= effects@);
        }
        match parse_envelope_at(envelope, now) {
            Ok(message) => {
                self.handle_incoming(message, effects, now);
                Ok(())
            },
            Err(error) => Err(error),
        }
    }
}

/// A bucket of a table in order that needs a refresh covers addresses, and only addresses.
proof fn lemma_pick_is_in_space(table: RoutingTableView, bucket: crate::node_bucket::NodeBucketView, now: Timestamp)
    requires
        table.wf(),
        exists|i: int|
            0 <= i < table.buckets.len() && #[trigger] table.buckets[i] == bucket
                && table.buckets[i].needs_refresh(now),
    ensures
        bucket.min < bucket.max <= crate::address::space_size(),
{
    let i = choose|i: int|
        0 <= i < table.buckets.len() && #[trigger] table.buckets[i] == bucket
            && table.buckets[i].needs_refresh(now);
    assert(table.buckets[i].min < table.buckets[i].max);
    if i < table.buckets.len() - 1 {
        table.lemma_ordered(i, table.buckets.len() - 1);
        assert(table.buckets[table.buckets.len() - 1].min < table.buckets[table.buckets.len()
            - 1].max);
    }
}

/// Effects that begin with the answer to a query begin with it whatever follows.
proof fn lemma_answers_by_prefix(
    network: NetworkView,
    reply: Seq<Effect>,
    added: Seq<Effect>,
    transaction_id: TransactionId,
    origin: NodeView,
    query: QueryView,
    now: Timestamp,
)
    requires
        network.answers(reply, transaction_id, origin, query, now),
        reply.len() == NetworkView::answer_len(query),
        added.len() >= reply.len(),
        added.take(reply.len() as int) == reply,
    ensures
        network.answers(added, transaction_id, origin, query, now),
{
    assert(added[0] == reply[0]);
    if query is Packet {
        assert(added[1] == reply[1]);
    }
}

/// Whether the effects are the pings that are due, each sent to the transports of its node
/// and from `origin`.
pub open spec fn pings(effects: Seq<Effect>, due: Seq<Probe>, origin: NodeView) -> bool {
    &&& effects.len() == due.len()
    &&& forall|i: int|
        0 <= i < due.len() ==> ((#[trigger] effects[i]) matches Effect::Send(message)
            && message.transports@ == due[i].transports && is_ping_query(
            message.envelope,
            due[i].transaction_id,
            origin,
        ))
}

} // verus!
