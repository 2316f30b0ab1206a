//! The routing table: buckets that together cover the address space, finer near our own address.

use crate::address::{seeded_generator, space_size, Address, Addressable, LENGTH};
use crate::messages::outgoing::Outgoing;
use crate::node::{views, Node, NodeView, Status};
use crate::numeric::{lemma_xor_cancels, xor, Numeric};
use rand::{Rng, StdRng};
use crate::node_bucket::{probes, sends_pings, NodeBucket, NodeBucketView, NotCovered, Probe};
use crate::node_bucket;
use crate::timestamp::Timestamp;
use crate::transaction::{TransactionId, TransactionIdGenerator};
use vstd::arithmetic::power2::{lemma2_to64, lemma_pow2_pos, lemma_pow2_unfold, pow2};
use vstd::prelude::*;

verus! {

/// What became of a node that was offered to the table.
#[derive(Clone, Copy, Debug, PartialEq, Eq, Structural)]
pub enum InsertOutcome {
    /// The node has our own address.
    Ignored,
    /// The node is new to the table and was taken in.
    Inserted,
    /// The table knew the node already.
    Updated,
    /// The bucket for the node is full of nodes that it keeps, and may not split.
    Discarded,
}

pub type InsertionResult = Result<InsertOutcome, NotCovered>;

/// Where in a table a node is: in a bucket, or among the routers.
#[derive(Clone, Copy, Debug, PartialEq, Eq, Structural)]
pub enum NodeHandle {
    /// The node at `position` of the bucket at `bucket`.
    Known { bucket: usize, position: usize },
    /// The router at `index`.
    Router { index: usize },
}

/// What each of the buckets holds.
pub open spec fn bucket_views(buckets: Seq<NodeBucket>) -> Seq<NodeBucketView> {
    buckets.map_values(|bucket: NodeBucket| bucket@)
}

/// The bucket with room made for a node, as far as room can be made: where the bucket would
/// discard the node and holds a bad node, it is the bucket without its worst node; any other
/// bucket is left as it is.
pub open spec fn with_room_for(bucket: NodeBucketView, node: NodeView, now: Timestamp) -> NodeBucketView {
    if bucket.insert(node, now).0 == Ok::<node_bucket::InsertOutcome, NotCovered>(
        node_bucket::InsertOutcome::Discarded,
    ) && bucket.any_bad_nodes(now) {
        bucket.remove_worst_node(now)
    } else {
        bucket
    }
}

/// A bucket in which room was made takes the node in.
pub proof fn lemma_room_is_taken(bucket: NodeBucketView, node: NodeView, now: Timestamp)
    requires
        bucket.wf(),
        bucket.insert(node, now).0 == Ok::<node_bucket::InsertOutcome, NotCovered>(
            node_bucket::InsertOutcome::Discarded,
        ),
        bucket.any_bad_nodes(now),
    ensures
        with_room_for(bucket, node, now).insert(node, now).0 == Ok::<
            node_bucket::InsertOutcome,
            NotCovered,
        >(node_bucket::InsertOutcome::Inserted),
        with_room_for(bucket, node, now).insert(node, now).1.nodes.len() == bucket.nodes.len(),
{
    bucket.lemma_remove_worst_keeps_order(now);
}

/// What a routing table holds: its buckets in the order of their ranges, and the routers to
/// fall back on.
pub struct RoutingTableView {
    /// The number of nodes that each bucket has room for.
    pub k: usize,
    /// Our own address.
    pub self_address: Address,
    pub routers: Seq<NodeView>,
    pub buckets: Seq<NodeBucketView>,
}

impl RoutingTableView {
    /// Whether the buckets part the address space: the first begins at zero, each begins
    /// where the one before it ends, the last ends where the space ends, and none is empty
    /// of numbers. Each bucket is in order and has room for `k` nodes, and there are at most
    /// as many buckets as an address has bits.
    pub open spec fn partitioned(self) -> bool {
        &&& 1 <= self.buckets.len() <= LENGTH
        &&& self.buckets[0].min == 0
        &&& self.buckets.last().max == space_size()
        &&& forall|i: int|
            0 <= i < self.buckets.len() ==> {
                &&& (#[trigger] self.buckets[i]).wf()
                &&& self.buckets[i].min < self.buckets[i].max
                &&& self.buckets[i].k == self.k
            }
        &&& forall|i: int, j: int|
            0 <= i && j == i + 1 && j < self.buckets.len() ==> (#[trigger] self.buckets[i]).max == (
            #[trigger] self.buckets[j]).min
    }

    /// Whether the table is in order: its buckets part the address space, its routers are in
    /// order, and the bucket that covers our own address has been halved once for each bucket
    /// beyond the first.
    pub open spec fn wf(self) -> bool {
        &&& self.partitioned()
        &&& forall|i: int| 0 <= i < self.routers.len() ==> (#[trigger] self.routers[i]).wf()
        &&& self.own_bucket().max - self.own_bucket().min == pow2(
            (LENGTH + 1 - self.buckets.len()) as nat,
        )
    }

    /// Whether the table holds a node with the address in a bucket.
    pub open spec fn holds(self, address: Address) -> bool {
        self.buckets[self.bucket_for(address)].contains(address)
    }

    /// Where the node with the address is, if the table holds it in a bucket.
    pub open spec fn handle_of(self, address: Address) -> NodeHandle {
        NodeHandle::Known {
            bucket: self.bucket_for(address) as usize,
            position: self.buckets[self.bucket_for(address)].position(address) as usize,
        }
    }

    /// Which bucket covers the address.
    pub open spec fn bucket_for(self, address: Address) -> int {
        choose|i: int| 0 <= i < self.buckets.len() && (#[trigger] self.buckets[i]).covers(address)
    }

    /// The bucket that covers our own address.
    pub open spec fn own_bucket(self) -> NodeBucketView {
        self.buckets[self.bucket_for(self.self_address)]
    }

    /// Whether the table has as many buckets as it may have.
    pub open spec fn buckets_maxed(self) -> bool {
        self.buckets.len() >= LENGTH
    }

    /// The table with the bucket at `index` parted into its two halves.
    pub open spec fn split_bucket(self, index: int) -> RoutingTableView {
        let halves = self.buckets[index].split();
        RoutingTableView {
            buckets: self.buckets.remove(index).insert(index, halves.0).insert(index + 1, halves.1),
            ..self
        }
    }

    /// The table with another bucket in the place of the one at `index`.
    pub open spec fn with_bucket(self, index: int, bucket: NodeBucketView) -> RoutingTableView {
        RoutingTableView { buckets: self.buckets.update(index, bucket), ..self }
    }

    /// Whether the bucket at `index` is to be parted before a node goes into it: it is full,
    /// it covers our own address, and the table may have more buckets.
    pub open spec fn must_split(self, index: int) -> bool {
        &&& 0 <= index < self.buckets.len()
        &&& !self.buckets_maxed()
        &&& self.buckets[index].is_full()
        &&& self.buckets[index].covers(self.self_address)
    }

    /// The table as it is when a node with the address can go into its bucket: the bucket for
    /// the address is parted, and again the half that then covers the address, as long as that
    /// is to be parted.
    pub open spec fn settled(self, address: Address) -> RoutingTableView
        decreases LENGTH - self.buckets.len(),
    {
        let index = self.bucket_for(address);
        if self.must_split(index) {
            self.split_bucket(index).settled(address)
        } else {
            self
        }
    }

    /// What becomes of `node` when it is offered to the table at `now`, and the table after
    /// that.
    ///
    /// A node with our own address is ignored. For any other node the table is settled for
    /// its address, room is made in the bucket that then covers it, and the node is offered to
    /// that bucket. Where the bucket discards the node all the same, each of its questionable
    /// nodes is sent a ping, in transactions that follow `last_id`.
    pub open spec fn insert(self, node: NodeView, last_id: TransactionId, now: Timestamp) -> (
        InsertionResult,
        RoutingTableView,
    ) {
        if node.address == self.self_address {
            (Ok(InsertOutcome::Ignored), self)
        } else {
            let settled = self.settled(node.address);
            let index = settled.bucket_for(node.address);
            let bucket = with_room_for(settled.buckets[index], node, now);
            match bucket.insert(node, now) {
                (Ok(node_bucket::InsertOutcome::Inserted), after) => (
                    Ok(InsertOutcome::Inserted),
                    settled.with_bucket(index, after),
                ),
                (Ok(node_bucket::InsertOutcome::Updated), after) => (
                    Ok(InsertOutcome::Updated),
                    settled.with_bucket(index, after),
                ),
                (Ok(node_bucket::InsertOutcome::Discarded), after) => (
                    Ok(InsertOutcome::Discarded),
                    settled.with_bucket(index, after.probed(last_id, now)),
                ),
                (Err(error), after) => (Err(error), settled.with_bucket(index, after)),
            }
        }
    }

    /// The pings that are due when `node` is offered to the table at `now`: one to each
    /// questionable node of the bucket that discards the node.
    pub open spec fn insert_probes(self, node: NodeView, last_id: TransactionId, now: Timestamp) -> Seq<
        Probe,
    > {
        if node.address == self.self_address {
            Seq::empty()
        } else {
            let settled = self.settled(node.address);
            let bucket = with_room_for(settled.buckets[settled.bucket_for(node.address)], node, now);
            match bucket.insert(node, now) {
                (Ok(node_bucket::InsertOutcome::Discarded), after) => probes(
                    after.nodes,
                    last_id,
                    now,
                ),
                _ => Seq::empty(),
            }
        }
    }

    /// Whether the table has a node where the handle points.
    pub open spec fn is_known(self, handle: NodeHandle) -> bool {
        match handle {
            NodeHandle::Known { bucket, position } => bucket < self.buckets.len() && position
                < self.buckets[bucket as int].nodes.len(),
            NodeHandle::Router { index } => index < self.routers.len(),
        }
    }

    /// The node where the handle points.
    pub open spec fn node(self, handle: NodeHandle) -> NodeView {
        match handle {
            NodeHandle::Known { bucket, position } => self.buckets[bucket as int].nodes[position as int],
            NodeHandle::Router { index } => self.routers[index as int],
        }
    }

    /// The table with `node` where the handle points.
    pub open spec fn with_node(self, handle: NodeHandle, node: NodeView) -> RoutingTableView {
        match handle {
            NodeHandle::Known { bucket, position } => self.with_bucket(
                bucket as int,
                self.buckets[bucket as int].with_node_at(position as int, node),
            ),
            NodeHandle::Router { index } => RoutingTableView {
                routers: self.routers.update(index as int, node),
                ..self
            },
        }
    }

    /// Whether the handle points to a node in a bucket that is not bad at `now`.
    pub open spec fn is_live(self, handle: NodeHandle, now: Timestamp) -> bool {
        &&& handle is Known
        &&& self.is_known(handle)
        &&& self.node(handle).status(now) != Status::Bad
    }

    /// Whether the handle points to a node in a bucket that is questionable at `now`.
    pub open spec fn is_questionable(self, handle: NodeHandle, now: Timestamp) -> bool {
        &&& handle is Known
        &&& self.is_known(handle)
        &&& self.node(handle).status(now) == Status::Questionable
    }

    /// How far the node where the handle points is from the target.
    pub open spec fn distance(self, handle: NodeHandle, target: Address) -> nat {
        xor(self.node(handle).address@, target@)
    }

    /// Whether the handles point to the live nodes nearest to the target, nearest first: to
    /// at most `k` nodes, each nearer than the next, and every live node that is left out is
    /// farther than each of `k` that are in.
    pub open spec fn are_nearest_live(self, chosen: Seq<NodeHandle>, target: Address, now: Timestamp) -> bool {
        &&& chosen.len() <= self.k
        &&& forall|i: int| 0 <= i < chosen.len() ==> self.is_live(#[trigger] chosen[i], now)
        &&& forall|i: int, j: int|
            0 <= i < j < chosen.len() ==> self.distance(#[trigger] chosen[i], target)
                < self.distance(#[trigger] chosen[j], target)
        &&& forall|handle: NodeHandle| #[trigger]
            self.is_live(handle, now) && !chosen.contains(handle) ==> chosen.len() == self.k
                && self.farther_than_all(handle, chosen, target)
    }

    /// Whether the node where the handle points is farther from the target than each of the
    /// others.
    pub open spec fn farther_than_all(self, handle: NodeHandle, others: Seq<NodeHandle>, target: Address) -> bool {
        forall|i: int|
            0 <= i < others.len() ==> self.distance(#[trigger] others[i], target) < self.distance(
                handle,
                target,
            )
    }

    /// The handles with handles to the first routers after them, as many as make `k` handles
    /// or as there are routers.
    pub open spec fn with_routers(self, chosen: Seq<NodeHandle>) -> Seq<NodeHandle> {
        let room = self.k - chosen.len();
        let count = if self.routers.len() <= room {
            self.routers.len() as int
        } else {
            room
        };
        chosen + Seq::new(count as nat, |i: int| NodeHandle::Router { index: i as usize })
    }

    /// Whether `first` comes before `second` where the table is walked bucket by bucket and
    /// in each bucket node by node.
    pub open spec fn walks_before(first: NodeHandle, second: NodeHandle) -> bool {
        match (first, second) {
            (
                NodeHandle::Known { bucket: b1, position: p1 },
                NodeHandle::Known { bucket: b2, position: p2 },
            ) => b1 < b2 || (b1 == b2 && p1 < p2),
            _ => false,
        }
    }

    /// Whether the handles point to the nodes that are questionable at `now`: to each of them
    /// and to no other node, in the order in which the table is walked.
    pub open spec fn are_questionable(self, handles: Seq<NodeHandle>, now: Timestamp) -> bool {
        &&& forall|i: int| 0 <= i < handles.len() ==> self.is_questionable(#[trigger] handles[i], now)
        &&& forall|i: int, j: int|
            0 <= i < j < handles.len() ==> Self::walks_before(#[trigger] handles[i], #[trigger] handles[j])
        &&& forall|handle: NodeHandle| #[trigger]
            self.is_questionable(handle, now) ==> handles.contains(handle)
    }

    /// In which buckets to look for stale ones: whether `indexes` are the buckets that need a
    /// refresh at `now`, each once and in their order.
    pub open spec fn are_stale(self, indexes: Seq<usize>, now: Timestamp) -> bool {
        &&& forall|i: int|
            0 <= i < indexes.len() ==> (#[trigger] indexes[i]) < self.buckets.len()
                && self.buckets[indexes[i] as int].needs_refresh(now)
        &&& forall|i: int, j: int| 0 <= i < j < indexes.len() ==> #[trigger] indexes[i] < #[trigger] indexes[j]
        &&& forall|bucket: int|
            0 <= bucket < self.buckets.len() && (#[trigger] self.buckets[bucket]).needs_refresh(now)
                ==> indexes.contains(bucket as usize)
    }

    /// No two nodes in the buckets of a table have the same address, so no two are equally
    /// far from a target.
    pub proof fn lemma_distinct_distances(self, first: NodeHandle, second: NodeHandle, target: Address)
        requires
            self.partitioned(),
            first is Known,
            second is Known,
            self.is_known(first),
            self.is_known(second),
            first != second,
        ensures
            self.node(first).address != self.node(second).address,
            self.distance(first, target) != self.distance(second, target),
    {
        let (b1, p1) = (first->bucket as int, first->position as int);
        let (b2, p2) = (second->bucket as int, second->position as int);
        let (a1, a2) = (self.node(first).address, self.node(second).address);
        assert(self.buckets[b1].wf() && self.buckets[b2].wf());
        assert(self.buckets[b1].covers(self.buckets[b1].nodes[p1].address));
        assert(self.buckets[b2].covers(self.buckets[b2].nodes[p2].address));
        if b1 == b2 {
            assert(self.buckets[b1].addresses()[p1] != self.buckets[b1].addresses()[p2]);
        } else if b1 < b2 {
            self.lemma_ordered(b1, b2);
        } else {
            self.lemma_ordered(b2, b1);
        }
        if xor(a1@, target@) == xor(a2@, target@) {
            lemma_xor_cancels(a1@, target@);
            lemma_xor_cancels(a2@, target@);
            Address::lemma_by_number(a1, a2);
        }
    }

    /// Whether the handles are what a search for the nodes nearest to the target gives at
    /// `now`: the nearest live nodes, and after them the routers where they are asked for.
    pub open spec fn is_nearest(
        self,
        handles: Seq<NodeHandle>,
        target: Address,
        include_routers: bool,
        now: Timestamp,
    ) -> bool {
        exists|chosen: Seq<NodeHandle>|
            {
                &&& #[trigger] self.are_nearest_live(chosen, target, now)
                &&& handles == if include_routers {
                    self.with_routers(chosen)
                } else {
                    chosen
                }
            }
    }

    /// Whether the handle points into a bucket before the one at `bucket`, or into that one
    /// before `position`.
    pub open spec fn is_before(handle: NodeHandle, bucket: int, position: int) -> bool {
        handle matches NodeHandle::Known { bucket: b, position: p } && (b < bucket || (b == bucket
            && p < position))
    }

    /// Whether `best` is the live node nearest to the target among those beyond `floor` that
    /// come before `position` of the bucket at `bucket`.
    pub open spec fn is_best_before(
        self,
        best: Option<(NodeHandle, Numeric)>,
        bucket: int,
        position: int,
        target: Address,
        floor: Option<Numeric>,
        now: Timestamp,
    ) -> bool {
        match best {
            Some((handle, distance)) => {
                &&& self.is_live(handle, now)
                &&& distance@ == self.distance(handle, target)
                &&& is_beyond(distance@, floor)
                &&& forall|other: NodeHandle| #[trigger]
                    self.is_live(other, now) && Self::is_before(other, bucket, position) && is_beyond(
                        self.distance(other, target),
                        floor,
                    ) ==> distance@ <= self.distance(other, target)
            },
            None => forall|other: NodeHandle| #[trigger]
                self.is_live(other, now) && Self::is_before(other, bucket, position) ==> !is_beyond(
                    self.distance(other, target),
                    floor,
                ),
        }
    }

    /// Whether the handles point to the questionable nodes that come before `position` of the
    /// bucket at `bucket`, in the order in which the table is walked.
    pub open spec fn are_questionable_before(
        self,
        handles: Seq<NodeHandle>,
        bucket: int,
        position: int,
        now: Timestamp,
    ) -> bool {
        &&& forall|i: int|
            0 <= i < handles.len() ==> self.is_questionable(#[trigger] handles[i], now)
                && Self::is_before(handles[i], bucket, position)
        &&& forall|i: int, j: int|
            0 <= i < j < handles.len() ==> Self::walks_before(#[trigger] handles[i], #[trigger] handles[j])
        &&& forall|handle: NodeHandle| #[trigger]
            self.is_questionable(handle, now) && Self::is_before(handle, bucket, position)
                ==> handles.contains(handle)
    }

    /// Whether `stale` is one of the buckets that need a refresh at `now`, or nothing where
    /// none needs one.
    pub open spec fn is_pick_of_stale(self, stale: Option<&NodeBucket>, now: Timestamp) -> bool {
        match stale {
            Some(bucket) => exists|i: int|
                0 <= i < self.buckets.len() && #[trigger] self.buckets[i] == bucket@
                    && self.buckets[i].needs_refresh(now),
            None => forall|i: int|
                0 <= i < self.buckets.len() ==> !(#[trigger] self.buckets[i]).needs_refresh(now),
        }
    }

    /// The table after the node where the handle points was sent a query at `now`.
    pub open spec fn queried(self, handle: NodeHandle, transaction_id: TransactionId, now: Timestamp) -> RoutingTableView {
        self.with_node(handle, self.node(handle).sent_query(transaction_id, now))
    }

    /// The table after each of the nodes where the handles point was sent a query of the same
    /// transaction at `now`.
    pub open spec fn queried_all(
        self,
        handles: Seq<NodeHandle>,
        transaction_id: TransactionId,
        now: Timestamp,
    ) -> RoutingTableView
        decreases handles.len(),
    {
        if handles.len() == 0 {
            self
        } else {
            self.queried_all(handles.drop_last(), transaction_id, now).queried(
                handles.last(),
                transaction_id,
                now,
            )
        }
    }

    /// The table after each of the nodes where the handles point was sent a query at `now`,
    /// each in a transaction of its own: the first in the one after `last_id`.
    pub open spec fn queried_each(self, handles: Seq<NodeHandle>, last_id: TransactionId, now: Timestamp) -> RoutingTableView
        decreases handles.len(),
    {
        if handles.len() == 0 {
            self
        } else {
            self.queried_each(handles.drop_last(), last_id, now).queried(
                handles.last(),
                TransactionIdGenerator::nth_after(last_id, handles.len()),
                now,
            )
        }
    }

    /// The table after a query from the node with the address came in at `now`; the table
    /// itself where it holds no such node.
    pub open spec fn noted_query(self, address: Address, now: Timestamp) -> RoutingTableView {
        if self.holds(address) {
            let handle = self.handle_of(address);
            self.with_node(handle, self.node(handle).received_query(now))
        } else {
            self
        }
    }

    /// The table after a response from the node with the address came in at `now`; the table
    /// itself where it holds no such node.
    pub open spec fn noted_response(self, address: Address, transaction_id: TransactionId, now: Timestamp) -> RoutingTableView {
        if self.holds(address) {
            let handle = self.handle_of(address);
            self.with_node(handle, self.node(handle).received_response(transaction_id, now))
        } else {
            self
        }
    }

    /// The nodes where the handles point.
    pub open spec fn nodes_at(self, handles: Seq<NodeHandle>) -> Seq<NodeView> {
        Seq::new(handles.len(), |i: int| self.node(handles[i]))
    }

    /// Sending a query to a node changes neither where the nodes are nor how to reach them,
    /// and leaves a table in order.
    pub proof fn lemma_queried(self, handle: NodeHandle, transaction_id: TransactionId, now: Timestamp)
        requires
            self.is_known(handle),
        ensures
            self.wf() ==> self.queried(handle, transaction_id, now).wf(),
            forall|other: NodeHandle| #[trigger]
                self.queried(handle, transaction_id, now).is_known(other) == self.is_known(other),
            forall|other: NodeHandle|
                self.is_known(other) ==> (#[trigger] self.queried(handle, transaction_id, now).node(
                    other,
                )).transports == self.node(other).transports && self.queried(
                    handle,
                    transaction_id,
                    now,
                ).node(other).address == self.node(other).address,
            self.queried(handle, transaction_id, now).k == self.k,
            self.queried(handle, transaction_id, now).self_address == self.self_address,
            self.queried(handle, transaction_id, now).buckets.len() == self.buckets.len(),
    {
        let after = self.queried(handle, transaction_id, now);
        let node = self.node(handle).sent_query(transaction_id, now);
        if self.wf() {
            match handle {
                NodeHandle::Known { bucket, position } => {
                    assert(self.buckets[bucket as int].wf());
                },
                NodeHandle::Router { index } => {
                    assert(self.routers[index as int].wf());
                },
            }
            self.lemma_with_node_keeps_order(handle, node);
        }
        assert forall|other: NodeHandle| #[trigger] after.is_known(other) == self.is_known(other) by {}
        assert forall|other: NodeHandle| self.is_known(other) implies (#[trigger] after.node(other)).transports
            == self.node(other).transports && after.node(other).address == self.node(other).address by {}
    }

    /// Whether the node where `first` points is nearer to the target than the one where
    /// `second` points.
    pub open spec fn nearer(self, target: Address) -> spec_fn(NodeHandle, NodeHandle) -> bool {
        |first: NodeHandle, second: NodeHandle|
            self.distance(first, target) < self.distance(second, target)
    }

    /// There is one answer to the question which live nodes are nearest to a target: handles
    /// that point to the nearest live nodes are the same handles, in the same order.
    pub proof fn lemma_nearest_is_unique(
        self,
        first: Seq<NodeHandle>,
        second: Seq<NodeHandle>,
        target: Address,
        now: Timestamp,
    )
        requires
            self.are_nearest_live(first, target, now),
            self.are_nearest_live(second, target, now),
        ensures
            first == second,
    {
        self.lemma_nearest_within(first, second, target, now);
        self.lemma_nearest_within(second, first, target, now);
        let nearer = self.nearer(target);
        assert forall|i: int, j: int| 0 <= i < j < first.len() implies nearer(first[i], first[j]) by {
            assert(self.distance(first[i], target) < self.distance(first[j], target));
        }
        assert forall|i: int, j: int| 0 <= i < j < second.len() implies nearer(
            second[i],
            second[j],
        ) by {
            assert(self.distance(second[i], target) < self.distance(second[j], target));
        }
        lemma_same_members_in_order(first, second, nearer);
    }

    /// Of two answers to the question which live nodes are nearest to a target, each holds
    /// every handle of the other.
    proof fn lemma_nearest_within(
        self,
        first: Seq<NodeHandle>,
        second: Seq<NodeHandle>,
        target: Address,
        now: Timestamp,
    )
        requires
            self.are_nearest_live(first, target, now),
            self.are_nearest_live(second, target, now),
        ensures
            forall|handle: NodeHandle| first.contains(handle) ==> second.contains(handle),
    {
        assert forall|handle: NodeHandle| first.contains(handle) implies second.contains(handle) by {
            if !second.contains(handle) {
                let at = choose|at: int| 0 <= at < first.len() && first[at] == handle;
                assert(self.is_live(first[at], now));
                assert(self.farther_than_all(handle, second, target));
                if exists|i: int| 0 <= i < second.len() && !first.contains(second[i]) {
                    let i = choose|i: int| 0 <= i < second.len() && !first.contains(second[i]);
                    assert(self.is_live(second[i], now));
                    assert(self.farther_than_all(second[i], first, target));
                    assert(self.distance(first[at], target) < self.distance(second[i], target));
                    assert(self.distance(second[i], target) < self.distance(handle, target));
                } else {
                    // all of `second` and one more would have to fit into `first`
                    let more = second.push(handle);
                    let nearer = self.nearer(target);
                    assert forall|i: int, j: int| 0 <= i < j < more.len() implies nearer(more[i], more[j]) by {
                        if j < second.len() {
                            assert(self.distance(second[i], target) < self.distance(second[j], target));
                        } else {
                            assert(self.distance(second[i], target) < self.distance(handle, target));
                        }
                    }
                    assert forall|handle: NodeHandle| more.to_set().contains(
                        handle,
                    ) implies first.to_set().contains(handle) by {
                        let i = choose|i: int| 0 <= i < more.len() && more[i] == handle;
                        if i < second.len() {
                            assert(first.contains(second[i]));
                        }
                    }
                    lemma_in_order_is_distinct(more, nearer);
                    more.unique_seq_to_set();
                    first.lemma_cardinality_of_set();
                    vstd::seq_lib::seq_to_set_is_finite(first);
                    vstd::set_lib::lemma_len_subset(more.to_set(), first.to_set());
                }
            }
        }
    }

    /// There is one answer to the question which nodes are questionable: handles that point
    /// to the questionable nodes are the same handles, in the same order.
    pub proof fn lemma_questionable_is_unique(
        self,
        first: Seq<NodeHandle>,
        second: Seq<NodeHandle>,
        now: Timestamp,
    )
        requires
            self.are_questionable(first, now),
            self.are_questionable(second, now),
        ensures
            first == second,
    {
        let before = |first: NodeHandle, second: NodeHandle| Self::walks_before(first, second);
        assert forall|handle: NodeHandle| first.contains(handle) implies second.contains(handle) by {
            let at = choose|at: int| 0 <= at < first.len() && first[at] == handle;
            assert(self.is_questionable(first[at], now));
        }
        assert forall|handle: NodeHandle| second.contains(handle) implies first.contains(handle) by {
            let at = choose|at: int| 0 <= at < second.len() && second[at] == handle;
            assert(self.is_questionable(second[at], now));
        }
        assert forall|i: int, j: int| 0 <= i < j < first.len() implies before(first[i], first[j]) by {
            assert(Self::walks_before(first[i], first[j]));
        }
        assert forall|i: int, j: int| 0 <= i < j < second.len() implies before(
            second[i],
            second[j],
        ) by {
            assert(Self::walks_before(second[i], second[j]));
        }
        lemma_same_members_in_order(first, second, before);
    }

    /// A table stays in order when one of its nodes changes but keeps its address and stays
    /// in order itself.
    pub proof fn lemma_with_node_keeps_order(self, handle: NodeHandle, node: NodeView)
        requires
            self.wf(),
            self.is_known(handle),
            node.wf(),
            node.address == self.node(handle).address,
        ensures
            self.with_node(handle, node).wf(),
    {
        match handle {
            NodeHandle::Known { bucket, position } => {
                let held = self.buckets[bucket as int];
                assert(held.wf());
                held.lemma_update_keeps_order(position as int, node);
                self.lemma_with_bucket_keeps_order(
                    bucket as int,
                    held.with_node_at(position as int, node),
                );
            },
            NodeHandle::Router { index } => {
                let after = self.with_node(handle, node);
                assert(after.buckets == self.buckets);
                assert forall|i: int| 0 <= i < after.routers.len() implies (#[trigger] after.routers[i]).wf() by {
                    if i != index {
                        assert(self.routers[i].wf());
                    }
                }
                assert(after.partitioned());
                assert(after.bucket_for(after.self_address) == self.bucket_for(self.self_address));
            },
        }
    }

    /// Of two buckets, the earlier one ends where the later one begins, or before.
    pub proof fn lemma_ordered(self, i: int, j: int)
        requires
            self.partitioned(),
            0 <= i < j < self.buckets.len(),
        ensures
            self.buckets[i].max <= self.buckets[j].min,
        decreases j - i,
    {
        if i + 1 < j {
            self.lemma_ordered(i, j - 1);
            assert(self.buckets[j - 1].max == self.buckets[j - 1 + 1].min);
            assert(self.buckets[j - 1].min < self.buckets[j - 1].max);
        } else {
            assert(self.buckets[i].max == self.buckets[i + 1].min);
        }
    }

    /// Some bucket from the one at `from` on covers an address that is not below that bucket.
    proof fn lemma_covered_from(self, address: Address, from: int)
        requires
            self.partitioned(),
            0 <= from < self.buckets.len(),
            self.buckets[from].min <= address@,
        ensures
            exists|i: int| from <= i < self.buckets.len() && (#[trigger] self.buckets[i]).covers(address),
        decreases self.buckets.len() - from,
    {
        address.lemma_in_space();
        if address@ < self.buckets[from].max {
            assert(self.buckets[from].covers(address));
        } else {
            assert(self.buckets[from].max == self.buckets[from + 1].min);
            self.lemma_covered_from(address, from + 1);
        }
    }

    /// The buckets of a table leave no gap and do not overlap: every address is covered by
    /// one bucket and by no other.
    pub proof fn lemma_covered_once(self, address: Address)
        requires
            self.partitioned(),
        ensures
            0 <= self.bucket_for(address) < self.buckets.len(),
            self.buckets[self.bucket_for(address)].covers(address),
            forall|i: int|
                0 <= i < self.buckets.len() && (#[trigger] self.buckets[i]).covers(address) ==> i
                    == self.bucket_for(address),
    {
        self.lemma_covered_from(address, 0);
        let found = self.bucket_for(address);
        assert forall|i: int|
            0 <= i < self.buckets.len() && (#[trigger] self.buckets[i]).covers(address) implies i
            == found by {
            if i < found {
                self.lemma_ordered(i, found);
            }
            if found < i {
                self.lemma_ordered(found, i);
            }
        }
    }

    /// Where the buckets are after the one at `index` was parted: its halves stand in its
    /// place, the buckets before it where they stood, the buckets after it one place on.
    pub proof fn lemma_split_buckets(self, index: int)
        requires
            0 <= index < self.buckets.len(),
        ensures
            self.split_bucket(index).buckets.len() == self.buckets.len() + 1,
            self.split_bucket(index).buckets[index] == self.buckets[index].split().0,
            self.split_bucket(index).buckets[index + 1] == self.buckets[index].split().1,
            forall|i: int|
                0 <= i < index ==> #[trigger] self.split_bucket(index).buckets[i] == self.buckets[i],
            forall|i: int|
                index + 1 < i <= self.buckets.len() ==> #[trigger] self.split_bucket(index).buckets[i]
                    == self.buckets[i - 1],
            self.split_bucket(index).k == self.k,
            self.split_bucket(index).self_address == self.self_address,
            self.split_bucket(index).routers == self.routers,
    {
    }

    /// Parting a bucket of more than one number leaves the buckets parting the address space.
    proof fn lemma_split_keeps_partition(self, index: int)
        requires
            self.partitioned(),
            0 <= index < self.buckets.len() < LENGTH,
            self.buckets[index].max - self.buckets[index].min >= 2,
        ensures
            self.split_bucket(index).partitioned(),
    {
        let after = self.split_bucket(index);
        let bucket = self.buckets[index];
        let halves = bucket.split();
        self.lemma_split_buckets(index);
        assert(bucket.wf());
        bucket.lemma_split_keeps_order();
        assert forall|i: int| 0 <= i < after.buckets.len() implies {
            &&& (#[trigger] after.buckets[i]).wf()
            &&& after.buckets[i].min < after.buckets[i].max
            &&& after.buckets[i].k == after.k
        } by {
            if i < index {
                assert(self.buckets[i].wf());
            } else if i > index + 1 {
                assert(self.buckets[i - 1].wf());
            }
        }
        assert forall|i: int, j: int| 0 <= i && j == i + 1 && j < after.buckets.len() implies (
        #[trigger] after.buckets[i]).max == (#[trigger] after.buckets[j]).min by {
            if i < index - 1 {
                assert(self.buckets[i].max == self.buckets[i + 1].min);
            } else if i == index - 1 {
                assert(self.buckets[i].max == self.buckets[i + 1].min);
            } else if i == index {
            } else if i == index + 1 {
                assert(self.buckets[index].max == self.buckets[index + 1].min);
            } else {
                assert(self.buckets[i - 1].max == self.buckets[i - 1 + 1].min);
            }
        }
        assert(after.buckets[0].min == 0);
        assert(after.buckets.last().max == space_size());
    }

    /// Parting the bucket that covers our own address leaves the table in order, with one
    /// bucket more.
    pub proof fn lemma_split_keeps_order(self, index: int)
        requires
            self.wf(),
            self.must_split(index),
        ensures
            self.split_bucket(index).wf(),
            self.split_bucket(index).buckets.len() == self.buckets.len() + 1,
    {
        let after = self.split_bucket(index);
        let bucket = self.buckets[index];
        let halves = bucket.split();
        self.lemma_covered_once(self.self_address);
        assert(index == self.bucket_for(self.self_address));
        let exponent = (LENGTH + 1 - self.buckets.len()) as nat;
        let half = pow2((exponent - 1) as nat);
        assert(bucket.max - bucket.min == 2 * half) by {
            lemma_pow2_unfold(exponent);
        }
        lemma_pow2_pos((exponent - 1) as nat);
        self.lemma_split_buckets(index);
        self.lemma_split_keeps_partition(index);
        after.lemma_covered_once(self.self_address);
        assert(halves.0.max - halves.0.min == half);
        assert(halves.1.max - halves.1.min == half);
        let own = after.bucket_for(self.self_address);
        if halves.0.covers(self.self_address) {
            assert(after.buckets[index].covers(self.self_address));
            assert(own == index);
        } else {
            assert(after.buckets[index + 1].covers(self.self_address));
            assert(own == index + 1);
        }
        assert(after.own_bucket().max - after.own_bucket().min == half);
    }

    /// Putting a bucket in order in the place of one with the same range and room leaves the
    /// table in order, and every address in the bucket that covered it.
    pub proof fn lemma_with_bucket_keeps_order(self, index: int, bucket: NodeBucketView)
        requires
            self.wf(),
            0 <= index < self.buckets.len(),
            bucket.wf(),
            bucket.min == self.buckets[index].min,
            bucket.max == self.buckets[index].max,
            bucket.k == self.buckets[index].k,
        ensures
            self.with_bucket(index, bucket).wf(),
            forall|address: Address|
                #[trigger] self.with_bucket(index, bucket).bucket_for(address) == self.bucket_for(address),
    {
        let after = self.with_bucket(index, bucket);
        assert forall|i: int, j: int| 0 <= i && j == i + 1 && j < after.buckets.len() implies (
        #[trigger] after.buckets[i]).max == (#[trigger] after.buckets[j]).min by {
            assert(self.buckets[i].max == self.buckets[j].min);
        }
        assert forall|i: int| 0 <= i < after.buckets.len() implies {
            &&& (#[trigger] after.buckets[i]).wf()
            &&& after.buckets[i].min < after.buckets[i].max
            &&& after.buckets[i].k == after.k
        } by {
            assert(self.buckets[i].wf());
        }
        assert(after.partitioned());
        assert forall|address: Address| #[trigger] after.bucket_for(address) == self.bucket_for(address) by {
            self.lemma_covered_once(address);
            after.lemma_covered_once(address);
            let found = self.bucket_for(address);
            assert(after.buckets[found].covers(address));
        }
        let own = self.bucket_for(self.self_address);
        assert(after.bucket_for(after.self_address) == own);
        self.lemma_covered_once(self.self_address);
        assert(after.buckets[own].max == self.buckets[own].max);
        assert(after.buckets[own].min == self.buckets[own].min);
    }

    /// Settling a table in order leaves it in order, with the bucket for the address ready to
    /// be offered a node.
    pub proof fn lemma_settled(self, address: Address)
        requires
            self.wf(),
        ensures
            self.settled(address).wf(),
            !self.settled(address).must_split(self.settled(address).bucket_for(address)),
            self.settled(address).k == self.k,
            self.settled(address).self_address == self.self_address,
            self.settled(address).routers == self.routers,
            self.settled(address).buckets.len() >= self.buckets.len(),
        decreases LENGTH - self.buckets.len(),
    {
        let index = self.bucket_for(address);
        if self.must_split(index) {
            let parted = self.split_bucket(index);
            self.lemma_split_keeps_order(index);
            parted.lemma_settled(address);
            assert(self.settled(address) == parted.settled(address));
        } else {
            assert(self.settled(address) == self);
        }
    }

    /// Settling a table leaves alone every bucket that does not cover our own address: only
    /// the bucket that does is ever parted.
    pub proof fn lemma_only_own_bucket_splits(self, address: Address, i: int)
        requires
            self.wf(),
            0 <= i < self.buckets.len(),
            !self.buckets[i].covers(self.self_address),
        ensures
            self.settled(address).buckets.contains(self.buckets[i]),
        decreases LENGTH - self.buckets.len(),
    {
        let index = self.bucket_for(address);
        if self.must_split(index) {
            let parted = self.split_bucket(index);
            self.lemma_split_keeps_order(index);
            self.lemma_split_buckets(index);
            let at = if i < index {
                i
            } else {
                i + 1
            };
            assert(parted.buckets[at] == self.buckets[i]);
            parted.lemma_only_own_bucket_splits(address, at);
            assert(self.settled(address) == parted.settled(address));
        } else {
            assert(self.settled(address) == self);
            assert(self.buckets[i] == self.buckets[i]);
        }
    }

    /// Offering a node in order to a table in order leaves the table in order: its buckets
    /// still part the address space, and each still covers what it holds.
    pub proof fn lemma_insert_keeps_order(self, node: NodeView, last_id: TransactionId, now: Timestamp)
        requires
            self.wf(),
            node.wf(),
        ensures
            self.insert(node, last_id, now).1.wf(),
            !(self.insert(node, last_id, now).0 is Err),
            self.insert(node, last_id, now).1.k == self.k,
            self.insert(node, last_id, now).1.self_address == self.self_address,
            self.insert(node, last_id, now).1.routers == self.routers,
    {
        if node.address != self.self_address {
            let settled = self.settled(node.address);
            self.lemma_settled(node.address);
            settled.lemma_covered_once(node.address);
            let index = settled.bucket_for(node.address);
            assert(settled.buckets[index].wf());
            settled.buckets[index].lemma_remove_worst_keeps_order(now);
            let bucket = with_room_for(settled.buckets[index], node, now);
            bucket.lemma_insert_keeps_order(node, now);
            let after = bucket.insert(node, now).1;
            if bucket.insert(node, now).0 == Ok::<node_bucket::InsertOutcome, NotCovered>(
                node_bucket::InsertOutcome::Discarded,
            ) {
                after.lemma_probed_keeps_order(last_id, now);
                settled.lemma_with_bucket_keeps_order(index, after.probed(last_id, now));
            } else {
                settled.lemma_with_bucket_keeps_order(index, after);
            }
        }
    }
}

/// The routing table of a node: what it knows of the network, bucket by bucket, and the
/// routers that it can always turn to.
pub struct RoutingTable {
    k: usize,
    self_address: Address,
    routers: Vec<Node>,
    buckets: Vec<NodeBucket>,
}

impl View for RoutingTable {
    type V = RoutingTableView;

    closed spec fn view(&self) -> RoutingTableView {
        RoutingTableView {
            k: self.k,
            self_address: self.self_address,
            routers: views(self.routers@),
            buckets: bucket_views(self.buckets@),
        }
    }
}

/// Two to the power of the number of bits of an address is the number of addresses.
proof fn lemma_space_is_power()
    ensures
        pow2(LENGTH as nat) == space_size(),
{
    lemma2_to64();
    vstd::arithmetic::power2::lemma_pow2_adds(64, 64);
    vstd::arithmetic::power2::lemma_pow2_adds(128, 32);
    assert(0x1_0000_0000_0000_0000nat * 0x1_0000_0000_0000_0000nat
        == 0x1_0000_0000_0000_0000_0000_0000_0000_0000nat) by (nonlinear_arith);
    assert(0x1_0000_0000_0000_0000_0000_0000_0000_0000nat * 0x1_0000_0000nat
        == 0x1_0000_0000_0000_0000_0000_0000_0000_0000_0000_0000nat) by (nonlinear_arith);
}

impl RoutingTable {
    /// A table around `self_address` with one empty bucket for the whole address space, each
    /// bucket to come with room for `k` nodes.
    pub fn new(k: usize, self_address: Address, routers: Vec<Node>) -> (table: RoutingTable)
        ensures
            table@.k == k,
            table@.self_address == self_address,
            table@.routers == views(routers@),
            table@.buckets.len() == 1,
            table@.buckets[0].k == k,
            table@.buckets[0].min == 0,
            table@.buckets[0].max == space_size(),
            table@.buckets[0].nodes == Seq::<NodeView>::empty(),
            table@.buckets[0].last_inserted@ == Timestamp::never(),
            (forall|i: int| 0 <= i < routers@.len() ==> (#[trigger] routers@[i]).wf()) ==> table@.wf(),
    {
        let bucket = NodeBucket::new(k);
        let mut buckets: Vec<NodeBucket> = Vec::new();
        buckets.push(bucket);
        let table = RoutingTable { k, self_address, routers, buckets };
        proof {
            lemma_space_is_power();
            assert(table@.buckets[0] == bucket@);
            self_address.lemma_in_space();
            assert(table@.buckets[0].covers(self_address));
            if forall|i: int| 0 <= i < routers@.len() ==> (#[trigger] routers@[i]).wf() {
                assert(table@.partitioned());
                table@.lemma_covered_once(self_address);
                assert forall|i: int| 0 <= i < table@.routers.len() implies (#[trigger] table@.routers[i]).wf() by {
                    assert(routers@[i].wf());
                }
            }
        }
        table
    }

    /// Our own address.
    pub fn self_address(&self) -> (address: Address)
        ensures
            address == self@.self_address,
    {
        self.self_address
    }

    /// The buckets, in the order of their ranges.
    pub fn buckets(&self) -> (buckets: &Vec<NodeBucket>)
        ensures
            bucket_views(buckets@) == self@.buckets,
    {
        &self.buckets
    }

    /// The routers to fall back on.
    pub fn routers(&self) -> (routers: &Vec<Node>)
        ensures
            views(routers@) == self@.routers,
    {
        &self.routers
    }

    /// The node where the handle points.
    pub fn node(&self, handle: NodeHandle) -> (node: &Node)
        requires
            self@.is_known(handle),
        ensures
            node@ == self@.node(handle),
    {
        match handle {
            NodeHandle::Known { bucket, position } => {
                assert(self@.buckets[bucket as int] == self.buckets@[bucket as int]@);
                &self.buckets[bucket].get_nodes()[position]
            },
            NodeHandle::Router { index } => &self.routers[index],
        }
    }

    /// The node where the handle points, to read and to change. The table stays in order as
    /// long as the node keeps its address and stays in order itself.
    pub fn node_mut(&mut self, handle: NodeHandle) -> (node: &mut Node)
        requires
            old(self)@.is_known(handle),
        ensures
            node@ == old(self)@.node(handle),
            final(self)@ == old(self)@.with_node(handle, final(node)@),
            old(self)@.wf() && final(node)@.address == node@.address && final(node).wf()
                ==> final(self)@.wf(),
    {
        proof {
            assert forall|node: NodeView|
                self@.wf() && node.address == self@.node(handle).address && #[trigger] node.wf() implies self@.with_node(
                handle,
                node,
            ).wf() by {
                self@.lemma_with_node_keeps_order(handle, node);
            }
        }
        match handle {
            NodeHandle::Known { bucket, position } => {
                proof {
                    assert(self@.buckets[bucket as int] == self.buckets@[bucket as int]@);
                    assert forall|changed: NodeBucket|
                        bucket_views(#[trigger] self.buckets@.update(bucket as int, changed))
                            == self@.buckets.update(bucket as int, changed@) by {
                        assert(bucket_views(self.buckets@.update(bucket as int, changed))
                            =~= self@.buckets.update(bucket as int, changed@));
                    }
                }
                self.buckets[bucket].node_mut(position)
            },
            NodeHandle::Router { index } => {
                proof {
                    assert forall|changed: Node|
                        views(#[trigger] self.routers@.update(index as int, changed))
                            == self@.routers.update(index as int, changed@) by {
                        assert(views(self.routers@.update(index as int, changed))
                            =~= self@.routers.update(index as int, changed@));
                    }
                }
                &mut self.routers[index]
            },
        }
    }

    /// Where the node with the address is, if the table holds it in a bucket.
    pub fn handle_for(&self, address: &Address) -> (found: Option<NodeHandle>)
        requires
            self@.partitioned(),
        ensures
            found is Some <==> self@.holds(*address),
            found matches Some(handle) ==> handle == self@.handle_of(*address) && self@.is_known(
                handle,
            ) && self@.node(handle).address == *address,
    {
        let bucket = self.bucket_for(address);
        assert(self@.buckets[bucket as int] == self.buckets@[bucket as int]@);
        match self.buckets[bucket].position_of(address) {
            Some(position) => Some(NodeHandle::Known { bucket, position }),
            None => None,
        }
    }

    /// The node with the address, to read and to change, if the table holds it in a bucket.
    /// The table stays in order as long as the node keeps its address and stays in order
    /// itself.
    pub fn find_node(&mut self, address: &Address) -> (found: Option<&mut Node>)
        requires
            old(self)@.partitioned(),
        ensures
            found is Some <==> old(self)@.holds(*address),
            found is None ==> final(self)@ == old(self)@,
            found matches Some(node) ==> old(self)@.is_known(old(self)@.handle_of(*address))
                && node@ == old(self)@.node(old(self)@.handle_of(*address)) && node@.address
                == *address,
            found matches Some(node) ==> final(self)@ == old(self)@.with_node(
                old(self)@.handle_of(*address),
                final(node)@,
            ),
            found matches Some(node) ==> (old(self)@.wf() && final(node)@.address == *address
                && final(node).wf() ==> final(self)@.wf()),
    {
        match self.handle_for(address) {
            Some(handle) => Some(self.node_mut(handle)),
            None => None,
        }
    }

    /// The live node that is nearest to the address among those beyond `floor`, with its
    /// distance; nothing where no live node is beyond `floor`.
    fn next_nearest(&self, address: &Address, floor: &Option<Numeric>, now: Timestamp) -> (next: Option<
        (NodeHandle, Numeric),
    >)
        ensures
            match next {
                Some((handle, distance)) => {
                    &&& self@.is_live(handle, now)
                    &&& distance@ == self@.distance(handle, *address)
                    &&& is_beyond(distance@, *floor)
                    &&& forall|other: NodeHandle| #[trigger]
                        self@.is_live(other, now) && is_beyond(self@.distance(other, *address), *floor)
                            ==> distance@ <= self@.distance(other, *address)
                },
                None => forall|other: NodeHandle| #[trigger]
                    self@.is_live(other, now) ==> !is_beyond(self@.distance(other, *address), *floor),
            },
    {
        let mut best: Option<(NodeHandle, Numeric)> = None;
        let mut bucket: usize = 0;
        while bucket < self.buckets.len()
            invariant
                bucket <= self.buckets.len(),
                self@.is_best_before(best, bucket as int, 0, *address, *floor, now),
            decreases self.buckets.len() - bucket,
        {
            let nodes = self.buckets[bucket].get_nodes();
            assert(self@.buckets[bucket as int] == self.buckets@[bucket as int]@);
            let mut position: usize = 0;
            while position < nodes.len()
                invariant
                    bucket < self.buckets.len(),
                    position <= nodes.len(),
                    views(nodes@) == self@.buckets[bucket as int].nodes,
                    self@.is_best_before(best, bucket as int, position as int, *address, *floor, now),
                decreases nodes.len() - position,
            {
                let handle = NodeHandle::Known { bucket, position };
                assert(nodes@[position as int]@ == self@.node(handle));
                if !nodes[position].is_bad_at(now) {
                    let distance = nodes[position].address().distance_from(address);
                    let beyond = match floor {
                        Some(floor) => floor.is_below(&distance),
                        None => true,
                    };
                    let nearer = match &best {
                        Some((_, least)) => distance.is_below(least),
                        None => true,
                    };
                    if beyond && nearer {
                        best = Some((handle, distance));
                    }
                }
                position += 1;
            }
            bucket += 1;
        }
        best
    }

    /// The live nodes nearest to the address, nearest first, and after them the routers where
    /// they are asked for, up to `k` nodes in all. Live is a node in a bucket that is not bad
    /// now.
    pub fn nearest_live_nodes_to(&self, address: &Address, include_routers: bool) -> (handles: Vec<
        NodeHandle,
    >)
        requires
            self@.wf(),
        ensures
            exists|now: Timestamp| #[trigger] self@.is_nearest(handles@, *address, include_routers, now),
    {
        self.nearest_live_nodes_to_at(address, include_routers, Timestamp::now())
    }

    /// The live nodes nearest to the address, nearest first, and after them the routers where
    /// they are asked for, up to `k` nodes in all. Live is a node in a bucket that is not bad
    /// at `now`.
    pub fn nearest_live_nodes_to_at(&self, address: &Address, include_routers: bool, now: Timestamp) -> (handles:
        Vec<NodeHandle>)
        requires
            self@.wf(),
        ensures
            self@.is_nearest(handles@, *address, include_routers, now),
            forall|i: int| 0 <= i < handles@.len() ==> self@.is_known(#[trigger] handles@[i]),
            handles@.len() <= self@.k,
    {
        let mut handles: Vec<NodeHandle> = Vec::new();
        let mut floor: Option<Numeric> = None;
        let mut exhausted = false;
        while handles.len() < self.k && !exhausted
            invariant
                self@.partitioned(),
                handles@.len() <= self@.k,
                forall|i: int| 0 <= i < handles@.len() ==> self@.is_live(#[trigger] handles@[i], now),
                forall|i: int, j: int|
                    0 <= i < j < handles@.len() ==> self@.distance(#[trigger] handles@[i], *address)
                        < self@.distance(#[trigger] handles@[j], *address),
                forall|handle: NodeHandle| #[trigger]
                    self@.is_live(handle, now) && !handles@.contains(handle)
                        ==> !exhausted && self@.farther_than_all(handle, handles@, *address),
                match floor {
                    Some(floor) => handles@.len() > 0 && floor@ == self@.distance(
                        handles@.last(),
                        *address,
                    ),
                    None => handles@.len() == 0,
                },
            decreases
                    self.k - handles.len() + if exhausted {
                        0int
                    } else {
                        1int
                    },
        {
            let ghost chosen = handles@;
            match self.next_nearest(address, &floor, now) {
                Some((next, distance)) => {
                    handles.push(next);
                    proof {
                        assert forall|i: int, j: int| 0 <= i < j < handles@.len() implies self@.distance(
                            #[trigger] handles@[i],
                            *address,
                        ) < self@.distance(#[trigger] handles@[j], *address) by {
                            if j == chosen.len() && i < chosen.len() - 1 {
                                assert(self@.distance(chosen[i], *address) < self@.distance(
                                    chosen[chosen.len() - 1],
                                    *address,
                                ));
                            }
                        }
                        assert forall|handle: NodeHandle| #[trigger]
                            self@.is_live(handle, now) && !handles@.contains(
                                handle,
                            ) implies self@.farther_than_all(handle, handles@, *address) by {
                            assert(handles@[chosen.len() as int] == next);
                            assert(handle != next);
                            if chosen.contains(handle) {
                                let at = choose|at: int| 0 <= at < chosen.len() && chosen[at] == handle;
                                assert(handles@[at] == handle);
                            }
                            assert(self@.farther_than_all(handle, chosen, *address));
                            if chosen.len() > 0 {
                                assert(self@.distance(chosen[chosen.len() - 1], *address)
                                    < self@.distance(handle, *address));
                            }
                            self@.lemma_distinct_distances(handle, next, *address);
                            assert forall|i: int| 0 <= i < handles@.len() implies self@.distance(
                                #[trigger] handles@[i],
                                *address,
                            ) < self@.distance(handle, *address) by {
                                if i < chosen.len() {
                                    assert(handles@[i] == chosen[i]);
                                }
                            }
                        }
                    }
                    floor = Some(distance);
                },
                None => {
                    exhausted = true;
                    proof {
                        assert forall|handle: NodeHandle| #[trigger]
                            self@.is_live(handle, now) implies handles@.contains(handle) by {
                            if !handles@.contains(handle) {
                                assert(self@.farther_than_all(handle, handles@, *address));
                                if handles@.len() > 0 {
                                    assert(self@.distance(handles@[handles@.len() - 1], *address)
                                        < self@.distance(handle, *address));
                                }
                            }
                        }
                    }
                },
            }
        }
        let ghost chosen = handles@;
        assert(self@.are_nearest_live(chosen, *address, now));
        if include_routers {
            let mut index: usize = 0;
            while index < self.routers.len() && handles.len() < self.k
                invariant
                    index <= self.routers.len(),
                    handles@.len() <= self@.k,
                    handles@.len() == chosen.len() + index,
                    self.routers@.len() == self@.routers.len(),
                    handles@ == chosen + Seq::new(
                        index as nat,
                        |i: int| NodeHandle::Router { index: i as usize },
                    ),
                decreases self.routers.len() - index,
            {
                handles.push(NodeHandle::Router { index });
                index += 1;
                assert(handles@ =~= chosen + Seq::new(
                    index as nat,
                    |i: int| NodeHandle::Router { index: i as usize },
                ));
            }
            assert(handles@ == self@.with_routers(chosen));
        }
        proof {
            assert forall|i: int| 0 <= i < handles@.len() implies self@.is_known(#[trigger] handles@[i]) by {
                if i < chosen.len() {
                    assert(self@.is_live(chosen[i], now));
                }
            }
        }
        handles
    }

    /// The nodes to turn to: the live nodes nearest to our own address, and the routers.
    pub fn nearest(&self) -> (handles: Vec<NodeHandle>)
        requires
            self@.wf(),
        ensures
            exists|now: Timestamp| #[trigger] self@.is_nearest(handles@, self@.self_address, true, now),
    {
        self.nearest_at(Timestamp::now())
    }

    /// The nodes to turn to at `now`: the live nodes nearest to our own address, and the
    /// routers.
    pub fn nearest_at(&self, now: Timestamp) -> (handles: Vec<NodeHandle>)
        requires
            self@.wf(),
        ensures
            self@.is_nearest(handles@, self@.self_address, true, now),
            forall|i: int| 0 <= i < handles@.len() ==> self@.is_known(#[trigger] handles@[i]),
            handles@.len() <= self@.k,
    {
        let self_address = self.self_address;
        self.nearest_live_nodes_to_at(&self_address, true, now)
    }

    /// The nodes of all buckets that are questionable now, in the order in which the table is
    /// walked.
    pub fn questionable_nodes(&self) -> (handles: Vec<NodeHandle>)
        ensures
            exists|now: Timestamp| #[trigger] self@.are_questionable(handles@, now),
    {
        self.questionable_nodes_at(Timestamp::now())
    }

    /// The nodes of all buckets that are questionable at `now`, in the order in which the
    /// table is walked.
    pub fn questionable_nodes_at(&self, now: Timestamp) -> (handles: Vec<NodeHandle>)
        ensures
            self@.are_questionable(handles@, now),
    {
        let mut handles: Vec<NodeHandle> = Vec::new();
        let mut bucket: usize = 0;
        while bucket < self.buckets.len()
            invariant
                bucket <= self.buckets.len(),
                self@.are_questionable_before(handles@, bucket as int, 0, now),
            decreases self.buckets.len() - bucket,
        {
            let nodes = self.buckets[bucket].get_nodes();
            assert(self@.buckets[bucket as int] == self.buckets@[bucket as int]@);
            let mut position: usize = 0;
            while position < nodes.len()
                invariant
                    bucket < self.buckets.len(),
                    position <= nodes.len(),
                    views(nodes@) == self@.buckets[bucket as int].nodes,
                    self@.are_questionable_before(handles@, bucket as int, position as int, now),
                decreases nodes.len() - position,
            {
                let handle = NodeHandle::Known { bucket, position };
                let ghost found = handles@;
                assert(nodes@[position as int]@ == self@.node(handle));
                if nodes[position].is_questionable_at(now) {
                    handles.push(handle);
                    proof {
                        assert forall|other: NodeHandle| #[trigger]
                            self@.is_questionable(other, now) && RoutingTableView::is_before(
                                other,
                                bucket as int,
                                position + 1,
                            ) implies handles@.contains(other) by {
                            if other == handle {
                                assert(handles@[found.len() as int] == handle);
                            } else {
                                assert(found.contains(other));
                                let at = choose|at: int| 0 <= at < found.len() && found[at] == other;
                                assert(handles@[at] == other);
                            }
                        }
                    }
                }
                position += 1;
            }
            bucket += 1;
        }
        handles
    }

    /// The buckets that need a refresh at `now`, in their order.
    pub fn stale_buckets_at(&self, now: Timestamp) -> (indexes: Vec<usize>)
        ensures
            self@.are_stale(indexes@, now),
    {
        let mut indexes: Vec<usize> = Vec::new();
        let mut bucket: usize = 0;
        while bucket < self.buckets.len()
            invariant
                bucket <= self.buckets.len(),
                forall|i: int|
                    0 <= i < indexes@.len() ==> (#[trigger] indexes@[i]) < bucket
                        && self@.buckets[indexes@[i] as int].needs_refresh(now),
                forall|i: int, j: int|
                    0 <= i < j < indexes@.len() ==> #[trigger] indexes@[i] < #[trigger] indexes@[j],
                forall|other: int|
                    0 <= other < bucket && (#[trigger] self@.buckets[other]).needs_refresh(now)
                        ==> indexes@.contains(other as usize),
            decreases self.buckets.len() - bucket,
        {
            let ghost found = indexes@;
            assert(self@.buckets[bucket as int] == self.buckets@[bucket as int]@);
            if self.buckets[bucket].needs_refresh_at(now) {
                indexes.push(bucket);
                proof {
                    assert forall|other: int|
                        0 <= other < bucket + 1 && (#[trigger] self@.buckets[other]).needs_refresh(
                            now,
                        ) implies indexes@.contains(other as usize) by {
                        if other == bucket {
                            assert(indexes@[found.len() as int] == bucket);
                        } else {
                            assert(found.contains(other as usize));
                            let at = choose|at: int|
                                0 <= at < found.len() && found[at] == other as usize;
                            assert(indexes@[at] == other as usize);
                        }
                    }
                }
            }
            bucket += 1;
        }
        indexes
    }

    /// The bucket at one of the indexes, drawn with the generator.
    fn bucket_drawn(&self, indexes: &Vec<usize>, generator: &mut StdRng) -> (bucket: &NodeBucket)
        requires
            indexes@.len() > 0,
            forall|i: int| 0 <= i < indexes@.len() ==> (#[trigger] indexes@[i]) < self@.buckets.len(),
        ensures
            exists|i: int|
                0 <= i < indexes@.len() && bucket@ == self@.buckets[#[trigger] indexes@[i] as int],
    {
        let drawn = random_below(generator, indexes.len());
        let index = indexes[drawn];
        assert(self@.buckets[index as int] == self.buckets@[index as int]@);
        &self.buckets[index]
    }

    /// One of the buckets that need a refresh now, picked at random. Nothing where none
    /// needs one, or where the operating system has no randomness to pick with.
    pub fn bucket_needing_refresh(&self) -> (stale: Option<&NodeBucket>)
        ensures
            stale is Some ==> exists|now: Timestamp| #[trigger] self@.is_pick_of_stale(stale, now),
    {
        self.bucket_needing_refresh_at(Timestamp::now())
    }

    /// One of the buckets that need a refresh at `now`, picked at random. Nothing where none
    /// needs one, or where the operating system has no randomness to pick with.
    pub fn bucket_needing_refresh_at(&self, now: Timestamp) -> (stale: Option<&NodeBucket>)
        ensures
            stale is Some ==> self@.is_pick_of_stale(stale, now),
    {
        let indexes = self.stale_buckets_at(now);
        if indexes.len() == 0 {
            None
        } else {
            match seeded_generator() {
                Some(mut generator) => {
                    let stale = Some(self.bucket_drawn(&indexes, &mut generator));
                    assert(self@.is_pick_of_stale(stale, now));
                    stale
                },
                None => None,
            }
        }
    }

    /// One of the buckets that need a refresh at `now`, picked at random with the generator;
    /// nothing where none needs one.
    pub fn bucket_needing_refresh_with(&self, generator: &mut StdRng, now: Timestamp) -> (stale: Option<
        &NodeBucket,
    >)
        ensures
            self@.is_pick_of_stale(stale, now),
    {
        let indexes = self.stale_buckets_at(now);
        if indexes.len() == 0 {
            assert(self@.is_pick_of_stale(None, now));
            None
        } else {
            let stale = Some(self.bucket_drawn(&indexes, generator));
            assert(self@.is_pick_of_stale(stale, now));
            stale
        }
    }

    /// Which bucket covers the address.
    fn bucket_for(&self, address: &Address) -> (index: usize)
        requires
            self@.partitioned(),
        ensures
            index == self@.bucket_for(*address),
            index < self@.buckets.len(),
            self@.buckets[index as int].covers(*address),
    {
        let mut index: usize = 0;
        while index < self.buckets.len() - 1 && !self.buckets[index].covers(address)
            invariant
                index < self.buckets.len(),
                forall|i: int| 0 <= i < index ==> !(#[trigger] self@.buckets[i]).covers(*address),
            decreases self.buckets.len() - index,
        {
            index += 1;
        }
        proof {
            self@.lemma_covered_once(*address);
            let found = self@.bucket_for(*address);
            assert(self@.buckets[found].covers(*address));
            assert(self@.buckets[index as int] == self.buckets@[index as int]@);
            if found < index {
                assert(!self@.buckets[found].covers(*address));
            }
        }
        index
    }

    /// Whether the table has as many buckets as it may have.
    fn buckets_maxed(&self) -> (maxed: bool)
        ensures
            maxed == self@.buckets_maxed(),
    {
        self.buckets.len() >= LENGTH
    }

    /// Parts the bucket at `index` into its two halves.
    fn split_bucket(&mut self, index: usize)
        requires
            index < old(self)@.buckets.len(),
            old(self)@.buckets[index as int].min <= old(self)@.buckets[index as int].max,
        ensures
            final(self)@ == old(self)@.split_bucket(index as int),
    {
        let ghost before = self.buckets@;
        let count = self.buckets.len();
        let bucket = self.buckets.remove(index);
        let (lower, upper) = bucket.split();
        self.buckets.insert(index, lower);
        self.buckets.insert(index + 1, upper);
        assert(bucket_views(self.buckets@) =~= bucket_views(before).remove(index as int).insert(
            index as int,
            lower@,
        ).insert(index + 1, upper@));
    }

    /// Offers `node` to the table now.
    pub fn insert(
        &mut self,
        node: Node,
        self_node: &Node,
        transaction_ids: &mut TransactionIdGenerator,
        outbox: &mut Vec<Outgoing>,
    ) -> (outcome: InsertionResult)
        requires
            old(self)@.wf(),
            node.wf(),
        ensures
            final(self)@.wf(),
            !(outcome is Err),
            exists|now: Timestamp|
                {
                    &&& (outcome, final(self)@) == #[trigger] old(self)@.insert(
                        node@,
                        old(transaction_ids).last_id(),
                        now,
                    )
                    &&& posted(
                        old(outbox)@,
                        final(outbox)@,
                        old(self)@.insert_probes(node@, old(transaction_ids).last_id(), now),
                        self_node@,
                    )
                    &&& final(transaction_ids).last_id() == TransactionIdGenerator::nth_after(
                        old(transaction_ids).last_id(),
                        old(self)@.insert_probes(node@, old(transaction_ids).last_id(), now).len(),
                    )
                },
    {
        self.insert_at(node, self_node, transaction_ids, outbox, Timestamp::now())
    }

    /// Offers `node` to the table at `now`. Where the bucket for the node is full and may not
    /// split, its worst bad node, if it has one, is removed to make room. The pings that the
    /// offer gives rise to go to the outbox, from `self_node` and in transactions that
    /// `transaction_ids` hands out.
    pub fn insert_at(
        &mut self,
        node: Node,
        self_node: &Node,
        transaction_ids: &mut TransactionIdGenerator,
        outbox: &mut Vec<Outgoing>,
        now: Timestamp,
    ) -> (outcome: InsertionResult)
        requires
            old(self)@.wf(),
            node.wf(),
        ensures
            final(self)@.wf(),
            !(outcome is Err),
            (outcome, final(self)@) == old(self)@.insert(node@, old(transaction_ids).last_id(), now),
            posted(
                old(outbox)@,
                final(outbox)@,
                old(self)@.insert_probes(node@, old(transaction_ids).last_id(), now),
                self_node@,
            ),
            final(transaction_ids).last_id() == TransactionIdGenerator::nth_after(
                old(transaction_ids).last_id(),
                old(self)@.insert_probes(node@, old(transaction_ids).last_id(), now).len(),
            ),
    {
        let ghost last_id = transaction_ids.last_id();
        proof {
            self@.lemma_insert_keeps_order(node@, last_id, now);
            TransactionIdGenerator::lemma_nth_after_step(last_id, 0);
            assert(outbox@.take(outbox@.len() as int) =~= outbox@);
            assert(outbox@.skip(outbox@.len() as int) =~= Seq::empty());
        }
        let address = node.address();
        if address == self.self_address {
            return Ok(InsertOutcome::Ignored);
        }
        let mut index = self.bucket_for(&address);
        while !self.buckets_maxed() && self.buckets[index].is_full() && self.buckets[index].covers(
            &self.self_address,
        )
            invariant
                self@.wf(),
                index == self@.bucket_for(address),
                index < self@.buckets.len(),
                self@.settled(address) == old(self)@.settled(address),
                self@.self_address == old(self)@.self_address,
            decreases LENGTH - self.buckets.len(),
        {
            proof {
                self@.lemma_split_keeps_order(index as int);
                assert(self@.buckets[index as int].min < self@.buckets[index as int].max);
            }
            self.split_bucket(index);
            index = self.bucket_for(&address);
        }
        let ghost settled = self@;
        proof {
            assert(settled == old(self)@.settled(address));
            settled.lemma_covered_once(address);
        }
        let ghost buckets = self.buckets@;
        if self.buckets[index].is_full() && !self.buckets[index].contains(&address)
            && self.buckets[index].any_bad_nodes_at(now) {
            self.buckets[index].remove_worst_node_at(now);
        }
        let outcome = self.buckets[index].insert_at(node, now);
        let offered = match outcome {
            Ok(node_bucket::InsertOutcome::Inserted) => Ok(InsertOutcome::Inserted),
            Ok(node_bucket::InsertOutcome::Updated) => Ok(InsertOutcome::Updated),
            Ok(node_bucket::InsertOutcome::Discarded) => {
                self.buckets[index].probe_questionable_at(self_node, transaction_ids, outbox, now);
                Ok(InsertOutcome::Discarded)
            },
            Err(error) => Err(error),
        };
        assert(bucket_views(self.buckets@) =~= bucket_views(buckets).update(
            index as int,
            self.buckets@[index as int]@,
        ));
        offered
    }
}

/// A list in a strict order holds nothing twice.
proof fn lemma_in_order_is_distinct(list: Seq<NodeHandle>, before: spec_fn(NodeHandle, NodeHandle) -> bool)
    requires
        forall|a: NodeHandle, b: NodeHandle| !(#[trigger] before(a, b) && before(b, a)),
        forall|i: int, j: int| 0 <= i < j < list.len() ==> before(list[i], list[j]),
    ensures
        list.no_duplicates(),
{
    assert forall|i: int, j: int| 0 <= i < list.len() && 0 <= j < list.len() && i != j implies list[i]
        != list[j] by {
        if i < j {
            assert(before(list[i], list[j]));
        } else {
            assert(before(list[j], list[i]));
        }
    }
}

/// Two lists that are in the same strict order and hold the same handles are the same list.
proof fn lemma_same_members_in_order(
    first: Seq<NodeHandle>,
    second: Seq<NodeHandle>,
    before: spec_fn(NodeHandle, NodeHandle) -> bool,
)
    requires
        forall|a: NodeHandle, b: NodeHandle| !(#[trigger] before(a, b) && before(b, a)),
        forall|i: int, j: int| 0 <= i < j < first.len() ==> before(first[i], first[j]),
        forall|i: int, j: int| 0 <= i < j < second.len() ==> before(second[i], second[j]),
        forall|handle: NodeHandle| first.contains(handle) ==> second.contains(handle),
        forall|handle: NodeHandle| second.contains(handle) ==> first.contains(handle),
    ensures
        first == second,
    decreases first.len(),
{
    if first.len() == 0 {
        if second.len() > 0 {
            assert(second.contains(second[0]));
        }
        assert(first =~= second);
    } else {
        assert(first.contains(first[0]));
        let j = choose|j: int| 0 <= j < second.len() && second[j] == first[0];
        assert(second.contains(second[0]));
        let i = choose|i: int| 0 <= i < first.len() && first[i] == second[0];
        if j > 0 {
            assert(before(second[0], second[j]));
            if i > 0 {
                assert(before(first[0], first[i]));
            }
        }
        assert(first[0] == second[0]);
        let rest_of_first = first.skip(1);
        let rest_of_second = second.skip(1);
        assert forall|handle: NodeHandle| rest_of_first.contains(handle) implies rest_of_second.contains(
            handle,
        ) by {
            let at = choose|at: int| 0 <= at < rest_of_first.len() && rest_of_first[at] == handle;
            assert(first[at + 1] == handle);
            assert(before(first[0], first[at + 1]));
            assert(first.contains(handle));
            let to = choose|to: int| 0 <= to < second.len() && second[to] == handle;
            assert(to > 0);
            assert(rest_of_second[to - 1] == handle);
        }
        assert forall|handle: NodeHandle| rest_of_second.contains(handle) implies rest_of_first.contains(
            handle,
        ) by {
            let at = choose|at: int| 0 <= at < rest_of_second.len() && rest_of_second[at] == handle;
            assert(second[at + 1] == handle);
            assert(before(second[0], second[at + 1]));
            assert(second.contains(handle));
            let to = choose|to: int| 0 <= to < first.len() && first[to] == handle;
            assert(to > 0);
            assert(rest_of_first[to - 1] == handle);
        }
        assert forall|a: int, b: int| 0 <= a < b < rest_of_first.len() implies before(
            rest_of_first[a],
            rest_of_first[b],
        ) by {
            assert(before(first[a + 1], first[b + 1]));
        }
        assert forall|a: int, b: int| 0 <= a < b < rest_of_second.len() implies before(
            rest_of_second[a],
            rest_of_second[b],
        ) by {
            assert(before(second[a + 1], second[b + 1]));
        }
        lemma_same_members_in_order(rest_of_first, rest_of_second, before);
        assert(first =~= seq![first[0]] + rest_of_first);
        assert(second =~= seq![second[0]] + rest_of_second);
    }
}

/// Whether a distance is beyond the floor; every distance is where there is no floor.
pub open spec fn is_beyond(distance: nat, floor: Option<Numeric>) -> bool {
    match floor {
        Some(floor) => floor@ < distance,
        None => true,
    }
}

/// `rand`'s `gen_range(0, bound)` on a generator that is seeded: a number from zero up to,
/// and not including, the bound. That is what its documentation promises of every draw.
#[verifier::external_body]
fn random_below(generator: &mut StdRng, bound: usize) -> (drawn: usize)
    requires
        bound > 0,
    ensures
        drawn < bound,
{
    generator.gen_range(0, bound)
}

/// Whether the outbox has grown by the pings that are due and by nothing else: what it held
/// is still there, and after it come the pings, each for the transports of its node and from
/// `origin`.
pub open spec fn posted(before: Seq<Outgoing>, after: Seq<Outgoing>, due: Seq<Probe>, origin: NodeView) -> bool {
    &&& after.len() == before.len() + due.len()
    &&& after.take(before.len() as int) == before
    &&& sends_pings(after.skip(before.len() as int), due, origin)
}

} // verus!
