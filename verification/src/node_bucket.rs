//! Buckets: the nodes known in one range of the address space, up to a fixed number of them.

use crate::address::{space_size, Address, Addressable};
use crate::messages::outgoing::{copy_transports, create_ping_query, is_ping_query, Outgoing};
use crate::node::{views, Node, NodeView, Status, Transport};
use crate::transaction::{TransactionId, TransactionIdGenerator};
use crate::numeric::Numeric;
use crate::timestamp::{Timestamp, NANOSECONDS_PER_MINUTE};
use rand::StdRng;
use vstd::prelude::*;

verus! {

/// A bucket that nothing has touched for more than this many minutes needs a refresh.
pub const MINUTES_UNTIL_NEEDS_REFRESH: i64 = 15;

/// What became of a node that was offered to a bucket.
#[derive(Clone, Copy, Debug, PartialEq, Eq, Structural)]
pub enum InsertOutcome {
    /// The node is new to the bucket and was taken in.
    Inserted,
    /// The bucket knew the node already and now has it as its most recently touched.
    Updated,
    /// The bucket is full of nodes that it keeps.
    Discarded,
}

/// A node was offered to a bucket whose range does not cover the node's address.
#[derive(Clone, Copy, Debug, PartialEq, Eq, Structural)]
pub struct NotCovered {
    pub address: Address,
}

pub type InsertionResult = Result<InsertOutcome, NotCovered>;

/// The later of `floor` and the times at which the nodes were last seen.
pub open spec fn latest_seen(nodes: Seq<NodeView>, floor: Timestamp) -> Timestamp
    decreases nodes.len(),
{
    if nodes.len() == 0 {
        floor
    } else {
        Timestamp::later_of(latest_seen(nodes.drop_last(), floor), nodes.last().last_seen())
    }
}

/// Whether a node's address is below the number.
pub open spec fn is_below(partition: nat) -> spec_fn(NodeView) -> bool {
    |node: NodeView| node.address@ < partition
}

/// Whether a node's address is the number or above it.
pub open spec fn is_not_below(partition: nat) -> spec_fn(NodeView) -> bool {
    |node: NodeView| node.address@ >= partition
}

/// The addresses of nodes.
pub open spec fn addresses_of(nodes: Seq<NodeView>) -> Seq<Address> {
    nodes.map_values(|node: NodeView| node.address)
}

/// Nodes picked from nodes with distinct addresses have distinct addresses, and each of them
/// is one of the nodes.
pub proof fn lemma_filter_keeps_distinct(nodes: Seq<NodeView>, keep: spec_fn(NodeView) -> bool)
    requires
        addresses_of(nodes).no_duplicates(),
    ensures
        addresses_of(nodes.filter(keep)).no_duplicates(),
        forall|i: int|
            0 <= i < nodes.filter(keep).len() ==> nodes.contains(#[trigger] nodes.filter(keep)[i])
                && keep(nodes.filter(keep)[i]),
        nodes.filter(keep).len() <= nodes.len(),
    decreases nodes.len(),
{
    let kept = nodes.filter(keep);
    if nodes.len() == 0 {
        assert(kept =~= Seq::empty()) by {
            reveal(Seq::filter);
        }
    } else {
        let front = nodes.drop_last();
        let last = nodes.last();
        assert(nodes =~= front.push(last));
        assert(addresses_of(front) =~= addresses_of(nodes).drop_last());
        lemma_filter_keeps_distinct(front, keep);
        front.lemma_filter_push(last, keep);
        let kept_front = front.filter(keep);
        assert forall|i: int| 0 <= i < kept.len() implies nodes.contains(#[trigger] kept[i]) && keep(
            kept[i],
        ) by {
            if i < kept_front.len() {
                assert(front.contains(kept_front[i]));
                let at = choose|at: int| 0 <= at < front.len() && front[at] == kept_front[i];
                assert(nodes[at] == kept[i]);
            } else {
                assert(nodes[nodes.len() - 1] == kept[i]);
            }
        }
        if keep(last) {
            assert forall|i: int, j: int|
                0 <= i < kept.len() && 0 <= j < kept.len() && i != j implies addresses_of(kept)[i]
                != addresses_of(kept)[j] by {
                if i < kept_front.len() && j < kept_front.len() {
                    assert(addresses_of(kept_front)[i] != addresses_of(kept_front)[j]);
                } else {
                    let inner = if i < kept_front.len() {
                        i
                    } else {
                        j
                    };
                    assert(front.contains(kept_front[inner]));
                    let at = choose|at: int| 0 <= at < front.len() && front[at] == kept_front[inner];
                    assert(addresses_of(nodes)[at] != addresses_of(nodes)[nodes.len() - 1]);
                }
            }
        }
    }
}

/// A ping that is due: the transaction it opens and the node it is for.
pub struct Probe {
    pub transaction_id: TransactionId,
    pub address: Address,
    pub transports: Seq<Transport>,
}

/// The pings that are due to the nodes that are questionable at `now`, in the order of the
/// nodes, each in a transaction of its own: the first in the one after `last_id`.
pub open spec fn probes(nodes: Seq<NodeView>, last_id: TransactionId, now: Timestamp) -> Seq<Probe>
    decreases nodes.len(),
{
    if nodes.len() == 0 {
        Seq::empty()
    } else {
        let before = probes(nodes.drop_last(), last_id, now);
        let node = nodes.last();
        if node.status(now) == Status::Questionable {
            before.push(
                Probe {
                    transaction_id: TransactionIdGenerator::nth_after(last_id, before.len() + 1),
                    address: node.address,
                    transports: node.transports,
                },
            )
        } else {
            before
        }
    }
}

/// The nodes after each that is questionable at `now` was sent the ping that is due to it.
pub open spec fn probed(nodes: Seq<NodeView>, last_id: TransactionId, now: Timestamp) -> Seq<NodeView>
    decreases nodes.len(),
{
    if nodes.len() == 0 {
        Seq::empty()
    } else {
        let before = probes(nodes.drop_last(), last_id, now);
        let node = nodes.last();
        probed(nodes.drop_last(), last_id, now).push(
            if node.status(now) == Status::Questionable {
                node.sent_query(TransactionIdGenerator::nth_after(last_id, before.len() + 1), now)
            } else {
                node
            },
        )
    }
}

/// Sending pings changes neither the number of the nodes, nor their addresses, nor their
/// transports.
pub proof fn lemma_probed_keeps(nodes: Seq<NodeView>, last_id: TransactionId, now: Timestamp)
    ensures
        probed(nodes, last_id, now).len() == nodes.len(),
        forall|i: int|
            0 <= i < nodes.len() ==> (#[trigger] probed(nodes, last_id, now)[i]).address
                == nodes[i].address && probed(nodes, last_id, now)[i].transports
                == nodes[i].transports,
        addresses_of(probed(nodes, last_id, now)) == addresses_of(nodes),
    decreases nodes.len(),
{
    if nodes.len() > 0 {
        lemma_probed_keeps(nodes.drop_last(), last_id, now);
        let after = probed(nodes, last_id, now);
        assert forall|i: int| 0 <= i < nodes.len() implies (#[trigger] after[i]).address
            == nodes[i].address && after[i].transports == nodes[i].transports by {
            if i < nodes.len() - 1 {
                assert(after[i] == probed(nodes.drop_last(), last_id, now)[i]);
                assert(nodes.drop_last()[i] == nodes[i]);
            }
        }
    }
    assert(addresses_of(probed(nodes, last_id, now)) =~= addresses_of(nodes));
}

/// Whether the messages are the pings that are due, each for the transports of its node and
/// from `origin`.
pub open spec fn sends_pings(messages: Seq<Outgoing>, due: Seq<Probe>, origin: NodeView) -> bool {
    &&& messages.len() == due.len()
    &&& forall|i: int|
        0 <= i < due.len() ==> (#[trigger] messages[i]).transports@ == due[i].transports
            && is_ping_query(messages[i].envelope, due[i].transaction_id, origin)
}

/// What a bucket holds: its capacity, its range, and its nodes, most recently touched first.
pub struct NodeBucketView {
    /// The number of nodes that the bucket has room for.
    pub k: usize,
    /// The lowest number that the bucket covers.
    pub min: nat,
    /// The lowest number above `min` that the bucket does not cover.
    pub max: nat,
    /// The nodes, most recently touched first.
    pub nodes: Seq<NodeView>,
    /// When a node was last inserted or touched.
    pub last_inserted: Timestamp,
}

impl NodeBucketView {
    /// The addresses of the nodes, in the order of the nodes.
    pub open spec fn addresses(self) -> Seq<Address> {
        addresses_of(self.nodes)
    }

    /// Whether the range of the bucket covers the address.
    pub open spec fn covers(self, address: Address) -> bool {
        self.min <= address@ < self.max
    }

    /// Whether the bucket is in order: it holds no more nodes than it has room for, no address
    /// twice, and only nodes in order whose addresses it covers.
    pub open spec fn wf(self) -> bool {
        &&& self.nodes.len() <= self.k
        &&& self.addresses().no_duplicates()
        &&& forall|i: int|
            0 <= i < self.nodes.len() ==> self.covers((#[trigger] self.nodes[i]).address)
                && self.nodes[i].wf()
    }

    /// Whether the bucket holds a node with the address.
    pub open spec fn contains(self, address: Address) -> bool {
        self.addresses().contains(address)
    }

    /// Where in the bucket the first node with the address is.
    pub open spec fn position(self, address: Address) -> int {
        choose|i: int|
            0 <= i < self.nodes.len() && self.nodes[i].address == address && forall|j: int|
                0 <= j < i ==> (#[trigger] self.nodes[j]).address != address
    }

    /// Whether the bucket has no room left.
    pub open spec fn is_full(self) -> bool {
        self.nodes.len() >= self.k
    }

    /// Whether the node at `i` is bad at `now`.
    pub open spec fn is_bad(self, i: int, now: Timestamp) -> bool {
        self.nodes[i].status(now) == Status::Bad
    }

    /// Whether any node of the bucket is bad at `now`.
    pub open spec fn any_bad_nodes(self, now: Timestamp) -> bool {
        exists|i: int| 0 <= i < self.nodes.len() && self.is_bad(i, now)
    }

    /// Whether the node at `i` is the worst at `now`: it is bad, no bad node has more queries
    /// unanswered, and every bad node after it has fewer.
    pub open spec fn is_worst(self, i: int, now: Timestamp) -> bool {
        &&& 0 <= i < self.nodes.len()
        &&& self.is_bad(i, now)
        &&& forall|j: int|
            0 <= j < self.nodes.len() && #[trigger] self.is_bad(j, now) ==> {
                &&& self.nodes[j].pending_query_count() <= self.nodes[i].pending_query_count()
                &&& j > i ==> self.nodes[j].pending_query_count()
                    < self.nodes[i].pending_query_count()
            }
    }

    /// Where the worst node at `now` is.
    pub open spec fn worst(self, now: Timestamp) -> int {
        choose|i: int| self.is_worst(i, now)
    }

    /// The bucket without its worst node at `now`; the bucket itself where no node is bad.
    pub open spec fn remove_worst_node(self, now: Timestamp) -> NodeBucketView {
        if self.any_bad_nodes(now) {
            NodeBucketView { nodes: self.nodes.remove(self.worst(now)), ..self }
        } else {
            self
        }
    }

    /// What becomes of `node` when it is offered to the bucket at `now`, and the bucket after
    /// that.
    ///
    /// A node that the range does not cover is refused. A node whose address the bucket
    /// holds makes the node that is held the most recently touched. Any other node goes to
    /// the front where there is room, and is discarded where the bucket is full. A full
    /// bucket gives up none of its nodes by itself: to make room is left to whoever offers
    /// the node, who can have the worst node removed and offer again.
    pub open spec fn insert(self, node: NodeView, now: Timestamp) -> (InsertionResult, NodeBucketView) {
        let address = node.address;
        if !self.covers(address) {
            (Err(NotCovered { address }), self)
        } else if self.contains(address) {
            let held = self.position(address);
            (
                Ok(InsertOutcome::Updated),
                self.touched_with(self.nodes.remove(held).insert(0, self.nodes[held]), now),
            )
        } else if !self.is_full() {
            (Ok(InsertOutcome::Inserted), self.touched_with(self.nodes.insert(0, node), now))
        } else {
            (Ok(InsertOutcome::Discarded), self)
        }
    }

    /// The bucket after each node that is questionable at `now` was sent a ping.
    pub open spec fn probed(self, last_id: TransactionId, now: Timestamp) -> NodeBucketView {
        NodeBucketView { nodes: probed(self.nodes, last_id, now), ..self }
    }

    /// A bucket in order stays in order when pings are sent to its nodes.
    pub proof fn lemma_probed_keeps_order(self, last_id: TransactionId, now: Timestamp)
        requires
            self.wf(),
        ensures
            self.probed(last_id, now).wf(),
    {
        lemma_probed_keeps(self.nodes, last_id, now);
        let after = self.probed(last_id, now);
        assert forall|i: int| 0 <= i < after.nodes.len() implies after.covers(
            (#[trigger] after.nodes[i]).address,
        ) && after.nodes[i].wf() by {
            assert(self.covers(self.nodes[i].address) && self.nodes[i].wf());
        }
    }

    /// The number halfway between the bounds of the bucket, where [`NodeBucketView::split`]
    /// parts it.
    pub open spec fn partition(self) -> nat {
        (self.min + (self.max - self.min) / 2) as nat
    }

    /// The two buckets that the bucket parts into: one for the numbers below the partition,
    /// one for the others, each with the nodes that it covers, in their order.
    pub open spec fn split(self) -> (NodeBucketView, NodeBucketView) {
        (
            NodeBucketView {
                max: self.partition(),
                nodes: self.nodes.filter(is_below(self.partition())),
                ..self
            },
            NodeBucketView {
                min: self.partition(),
                nodes: self.nodes.filter(is_not_below(self.partition())),
                ..self
            },
        )
    }

    /// When the bucket last changed: when a node was last inserted or touched, or when one of
    /// its nodes was last seen, whichever is later.
    pub open spec fn last_changed(self) -> Timestamp {
        latest_seen(self.nodes, self.last_inserted)
    }

    /// Whether at `now` the bucket has not changed for more than
    /// [`MINUTES_UNTIL_NEEDS_REFRESH`] minutes.
    pub open spec fn needs_refresh(self, now: Timestamp) -> bool {
        now@ - self.last_changed()@ > MINUTES_UNTIL_NEEDS_REFRESH * NANOSECONDS_PER_MINUTE
    }

    /// The addresses of the nodes that are questionable at `now`, in the order of the nodes.
    pub open spec fn questionable_nodes(self, now: Timestamp) -> Seq<Address> {
        self.nodes.filter(|node: NodeView| node.status(now) == Status::Questionable).map_values(
            |node: NodeView| node.address,
        )
    }

    /// There is at most one worst node.
    pub proof fn lemma_worst_is_unique(self, i: int, now: Timestamp)
        requires
            self.is_worst(i, now),
        ensures
            self.any_bad_nodes(now),
            self.worst(now) == i,
    {
        let chosen = self.worst(now);
        assert(self.is_bad(i, now));
        assert(self.is_bad(chosen, now));
    }

    /// In a bucket in order, the node with an address is found by the address.
    pub proof fn lemma_position(self, i: int)
        requires
            self.wf(),
            0 <= i < self.nodes.len(),
        ensures
            self.contains(self.nodes[i].address),
            self.position(self.nodes[i].address) == i,
    {
        let addresses = self.addresses();
        assert(addresses[i] == self.nodes[i].address);
        assert forall|j: int| 0 <= j < i implies (#[trigger] self.nodes[j]).address
            != self.nodes[i].address by {
            assert(addresses[j] != addresses[i]);
        }
        self.lemma_first_position(i);
    }

    /// The first node with an address is where the address is found.
    pub proof fn lemma_first_position(self, i: int)
        requires
            0 <= i < self.nodes.len(),
            forall|j: int| 0 <= j < i ==> (#[trigger] self.nodes[j]).address != self.nodes[i].address,
        ensures
            self.contains(self.nodes[i].address),
            self.position(self.nodes[i].address) == i,
    {
        let address = self.nodes[i].address;
        assert(self.addresses()[i] == address);
        let found = self.position(address);
        assert(self.nodes[found].address == address);
        if found < i {
            assert(self.nodes[found].address != address);
        }
        if i < found {
            assert(self.nodes[i].address != address);
        }
    }

    /// The bucket with `node` in the place of the node at `i`.
    pub open spec fn with_node_at(self, i: int, node: NodeView) -> NodeBucketView {
        NodeBucketView { nodes: self.nodes.update(i, node), ..self }
    }

    /// A bucket stays in order when one of its nodes changes but keeps its address and stays
    /// in order itself.
    pub proof fn lemma_update_keeps_order(self, i: int, node: NodeView)
        requires
            self.wf(),
            0 <= i < self.nodes.len(),
            node.address == self.nodes[i].address,
            node.wf(),
        ensures
            self.with_node_at(i, node).wf(),
    {
        let after = self.with_node_at(i, node);
        assert(after.addresses() =~= self.addresses());
        assert forall|j: int| 0 <= j < after.nodes.len() implies after.covers(
            (#[trigger] after.nodes[j]).address,
        ) && after.nodes[j].wf() by {
            if j != i {
                assert(after.nodes[j] == self.nodes[j]);
            }
        }
    }

    /// A bucket in order stays in order without one of its nodes, and no longer holds that
    /// node's address.
    pub proof fn lemma_remove_keeps_order(self, i: int)
        requires
            self.wf(),
            0 <= i < self.nodes.len(),
        ensures
            (NodeBucketView { nodes: self.nodes.remove(i), ..self }).wf(),
            !(NodeBucketView { nodes: self.nodes.remove(i), ..self }).contains(
                self.nodes[i].address,
            ),
            forall|address: Address|
                address != self.nodes[i].address ==> (#[trigger] (NodeBucketView {
                    nodes: self.nodes.remove(i),
                    ..self
                }).contains(address) <==> self.contains(address)),
    {
        let after = NodeBucketView { nodes: self.nodes.remove(i), ..self };
        assert(after.addresses() =~= self.addresses().remove(i));
        assert forall|a: int, b: int|
            0 <= a < after.nodes.len() && 0 <= b < after.nodes.len() && a != b implies after.addresses()[a]
            != after.addresses()[b] by {
            let from_a = if a < i {
                a
            } else {
                a + 1
            };
            let from_b = if b < i {
                b
            } else {
                b + 1
            };
            assert(after.addresses()[a] == self.addresses()[from_a]);
            assert(after.addresses()[b] == self.addresses()[from_b]);
        }
        assert forall|j: int| 0 <= j < after.nodes.len() implies after.covers(
            (#[trigger] after.nodes[j]).address,
        ) && after.nodes[j].wf() by {
            let from = if j < i {
                j
            } else {
                j + 1
            };
            assert(after.nodes[j] == self.nodes[from]);
        }
        if after.contains(self.nodes[i].address) {
            let j = choose|j: int|
                0 <= j < after.addresses().len() && after.addresses()[j] == self.nodes[i].address;
            let from = if j < i {
                j
            } else {
                j + 1
            };
            assert(self.addresses()[from] == self.addresses()[i]);
        }
        assert forall|address: Address| address != self.nodes[i].address implies (
        #[trigger] after.contains(address) <==> self.contains(address)) by {
            if after.contains(address) {
                let j = choose|j: int|
                    0 <= j < after.addresses().len() && after.addresses()[j] == address;
                let from = if j < i {
                    j
                } else {
                    j + 1
                };
                assert(self.addresses()[from] == address);
            }
            if self.contains(address) {
                let j = choose|j: int|
                    0 <= j < self.addresses().len() && self.addresses()[j] == address;
                let to = if j < i {
                    j
                } else {
                    j - 1
                };
                assert(after.addresses()[to] == address);
            }
        }
    }

    /// A bucket in order with room left stays in order with a node in front that it covers
    /// and did not hold.
    pub proof fn lemma_insert_front_keeps_order(self, node: NodeView)
        requires
            self.wf(),
            node.wf(),
            self.covers(node.address),
            !self.contains(node.address),
            self.nodes.len() < self.k,
        ensures
            (NodeBucketView { nodes: self.nodes.insert(0, node), ..self }).wf(),
    {
        let after = NodeBucketView { nodes: self.nodes.insert(0, node), ..self };
        assert(after.addresses() =~= self.addresses().insert(0, node.address));
        assert forall|a: int, b: int|
            0 <= a < after.nodes.len() && 0 <= b < after.nodes.len() && a != b implies after.addresses()[a]
            != after.addresses()[b] by {
            if a > 0 {
                assert(after.addresses()[a] == self.addresses()[a - 1]);
            }
            if b > 0 {
                assert(after.addresses()[b] == self.addresses()[b - 1]);
            }
        }
        assert forall|j: int| 0 <= j < after.nodes.len() implies after.covers(
            (#[trigger] after.nodes[j]).address,
        ) && after.nodes[j].wf() by {
            if j > 0 {
                assert(after.nodes[j] == self.nodes[j - 1]);
            }
        }
    }

    /// The bucket with other nodes, touched at `now`.
    pub open spec fn touched_with(self, nodes: Seq<NodeView>, now: Timestamp) -> NodeBucketView {
        NodeBucketView { nodes, last_inserted: now, ..self }
    }

    /// Whether a bucket is in order does not depend on when it was touched.
    pub proof fn lemma_order_ignores_time(self, now: Timestamp)
        requires
            self.wf(),
        ensures
            self.touched_with(self.nodes, now).wf(),
    {
        let after = self.touched_with(self.nodes, now);
        assert(after.addresses() == self.addresses());
        assert forall|i: int| 0 <= i < after.nodes.len() implies after.covers(
            (#[trigger] after.nodes[i]).address,
        ) && after.nodes[i].wf() by {
            assert(self.covers(self.nodes[i].address));
        }
    }

    /// Offering a node in order to a bucket in order leaves the bucket in order: it still
    /// covers what it holds, holds nothing twice, and holds no more than it has room for.
    pub proof fn lemma_insert_keeps_order(self, node: NodeView, now: Timestamp)
        requires
            self.wf(),
            node.wf(),
        ensures
            self.insert(node, now).1.wf(),
    {
        let address = node.address;
        let after = self.insert(node, now).1;
        if !self.covers(address) {
            assert(after == self);
        } else if self.contains(address) {
            self.lemma_contains(address);
            let held = self.position(address);
            self.lemma_remove_keeps_order(held);
            let without = NodeBucketView { nodes: self.nodes.remove(held), ..self };
            without.lemma_insert_front_keeps_order(self.nodes[held]);
            let front = NodeBucketView { nodes: without.nodes.insert(0, self.nodes[held]), ..without };
            front.lemma_order_ignores_time(now);
            assert(after == front.touched_with(front.nodes, now));
        } else if !self.is_full() {
            self.lemma_insert_front_keeps_order(node);
            let front = NodeBucketView { nodes: self.nodes.insert(0, node), ..self };
            front.lemma_order_ignores_time(now);
            assert(after == front.touched_with(front.nodes, now));
        } else {
            assert(after == self);
        }
    }

    /// Removing the worst node leaves a bucket in order. Where a node is bad, the bucket then
    /// has room for one node more, and still holds every address but that of the node that
    /// left.
    pub proof fn lemma_remove_worst_keeps_order(self, now: Timestamp)
        requires
            self.wf(),
        ensures
            self.remove_worst_node(now).wf(),
            self.remove_worst_node(now).k == self.k,
            self.remove_worst_node(now).min == self.min,
            self.remove_worst_node(now).max == self.max,
            self.any_bad_nodes(now) ==> self.remove_worst_node(now).nodes.len() + 1
                == self.nodes.len(),
            forall|address: Address|
                !self.contains(address) ==> !(#[trigger] self.remove_worst_node(now).contains(address)),
    {
        if self.any_bad_nodes(now) {
            self.lemma_worst_exists(now);
            let worst = self.worst(now);
            self.lemma_remove_keeps_order(worst);
            self.lemma_position(worst);
        }
    }

    /// Where a node is bad, one node is the worst.
    pub proof fn lemma_worst_exists(self, now: Timestamp)
        requires
            self.any_bad_nodes(now),
        ensures
            self.is_worst(self.worst(now), now),
    {
        self.lemma_worst_among(self.nodes.len() as int, now);
        let i = choose|i: int| self.is_worst_among(i, self.nodes.len() as int, now);
        assert(self.is_worst(i, now));
    }

    /// Whether the node at `i` is the worst of the first `count` nodes.
    pub open spec fn is_worst_among(self, i: int, count: int, now: Timestamp) -> bool {
        &&& 0 <= i < count
        &&& self.is_bad(i, now)
        &&& forall|j: int|
            0 <= j < count && #[trigger] self.is_bad(j, now) ==> {
                &&& self.nodes[j].pending_query_count() <= self.nodes[i].pending_query_count()
                &&& j > i ==> self.nodes[j].pending_query_count()
                    < self.nodes[i].pending_query_count()
            }
    }

    /// Where one of the first `count` nodes is bad, one of them is the worst of them.
    pub proof fn lemma_worst_among(self, count: int, now: Timestamp)
        requires
            0 <= count <= self.nodes.len(),
        ensures
            (exists|i: int| 0 <= i < count && self.is_bad(i, now)) ==> exists|i: int|
                self.is_worst_among(i, count, now),
        decreases count,
    {
        if count > 0 {
            let last = count - 1;
            self.lemma_worst_among(last, now);
            if exists|i: int| 0 <= i < last && self.is_bad(i, now) {
                let before = choose|i: int| self.is_worst_among(i, last, now);
                if self.is_bad(last, now) && self.nodes[last].pending_query_count()
                    >= self.nodes[before].pending_query_count() {
                    assert(self.is_worst_among(last, count, now));
                } else {
                    assert(self.is_worst_among(before, count, now));
                }
            } else if self.is_bad(last, now) {
                assert(self.is_worst_among(last, count, now));
            }
        }
    }

    /// The halves of a bucket in order are in order.
    pub proof fn lemma_split_keeps_order(self)
        requires
            self.wf(),
            self.min <= self.max,
        ensures
            self.split().0.wf(),
            self.split().1.wf(),
            self.split().0.max == self.split().1.min,
            self.min <= self.partition() <= self.max,
    {
        let (lower, upper) = self.split();
        lemma_filter_keeps_distinct(self.nodes, is_below(self.partition()));
        lemma_filter_keeps_distinct(self.nodes, is_not_below(self.partition()));
        assert forall|i: int| 0 <= i < lower.nodes.len() implies lower.covers(
            (#[trigger] lower.nodes[i]).address,
        ) && lower.nodes[i].wf() by {
            let at = choose|at: int| 0 <= at < self.nodes.len() && self.nodes[at] == lower.nodes[i];
            assert(self.covers(self.nodes[at].address));
        }
        assert forall|i: int| 0 <= i < upper.nodes.len() implies upper.covers(
            (#[trigger] upper.nodes[i]).address,
        ) && upper.nodes[i].wf() by {
            let at = choose|at: int| 0 <= at < self.nodes.len() && self.nodes[at] == upper.nodes[i];
            assert(self.covers(self.nodes[at].address));
        }
    }

    /// Where a node has an address, there is a first node that has it.
    pub proof fn lemma_first_exists(self, address: Address, i: int)
        requires
            0 <= i < self.nodes.len(),
            self.nodes[i].address == address,
        ensures
            0 <= self.position(address) <= i,
            self.nodes[self.position(address)].address == address,
        decreases i,
    {
        if exists|j: int| 0 <= j < i && (#[trigger] self.nodes[j]).address == address {
            let j = choose|j: int| 0 <= j < i && (#[trigger] self.nodes[j]).address == address;
            self.lemma_first_exists(address, j);
        } else {
            self.lemma_first_position(i);
        }
    }

    /// A bucket holds an address just when one of its nodes has it.
    pub proof fn lemma_contains(self, address: Address)
        ensures
            self.contains(address) <==> exists|i: int|
                0 <= i < self.nodes.len() && (#[trigger] self.nodes[i]).address == address,
            self.contains(address) ==> 0 <= self.position(address) < self.nodes.len()
                && self.nodes[self.position(address)].address == address,
    {
        let addresses = self.addresses();
        if self.contains(address) {
            let i = choose|i: int| 0 <= i < addresses.len() && addresses[i] == address;
            assert(self.nodes[i].address == address);
            self.lemma_first_exists(address, i);
        }
        if exists|i: int| 0 <= i < self.nodes.len() && (#[trigger] self.nodes[i]).address == address {
            let i = choose|i: int|
                0 <= i < self.nodes.len() && (#[trigger] self.nodes[i]).address == address;
            assert(addresses[i] == address);
        }
    }
}

/// A bucket of the routing table: up to `k` nodes whose addresses lie in one range of the
/// address space.
pub struct NodeBucket {
    k: usize,
    min: Numeric,
    max: Numeric,
    /// The nodes, most recently touched first, no two with one address. The list is the map
    /// from address to node and the order of touching in one: a hash map keyed by addresses
    /// would hide from the proofs what it holds, since nothing is known of how a derived
    /// `Hash` behaves.
    nodes: Vec<Node>,
    last_inserted: Timestamp,
}

impl View for NodeBucket {
    type V = NodeBucketView;

    closed spec fn view(&self) -> NodeBucketView {
        NodeBucketView {
            k: self.k,
            min: self.min@,
            max: self.max@,
            nodes: views(self.nodes@),
            last_inserted: self.last_inserted,
        }
    }
}

impl NodeBucket {
    /// An empty bucket for up to `k` nodes that covers the whole address space and was never
    /// touched.
    pub fn new(k: usize) -> (bucket: NodeBucket)
        ensures
            bucket@.wf(),
            bucket@ == (NodeBucketView {
                k,
                min: 0,
                max: space_size(),
                nodes: Seq::empty(),
                last_inserted: bucket@.last_inserted,
            }),
            bucket@.last_inserted@ == Timestamp::never(),
    {
        let bucket = NodeBucket {
            k,
            min: Numeric::zero(),
            max: Numeric::new(0x1_0000_0000, 0),
            nodes: Vec::new(),
            last_inserted: Timestamp::empty(),
        };
        assert(bucket@.nodes =~= Seq::empty());
        assert(bucket@.addresses() =~= Seq::empty());
        bucket
    }

    /// An empty bucket for up to `k` nodes that covers the numbers from `min` up to, and not
    /// including, `max`, and was never touched.
    pub fn with_range(k: usize, min: Numeric, max: Numeric) -> (bucket: NodeBucket)
        ensures
            bucket@.wf(),
            bucket@ == (NodeBucketView {
                k,
                min: min@,
                max: max@,
                nodes: Seq::empty(),
                last_inserted: bucket@.last_inserted,
            }),
            bucket@.last_inserted@ == Timestamp::never(),
    {
        let bucket = NodeBucket { k, min, max, nodes: Vec::new(), last_inserted: Timestamp::empty() };
        assert(bucket@.nodes =~= Seq::empty());
        assert(bucket@.addresses() =~= Seq::empty());
        bucket
    }

    /// Whether any node of the bucket is bad now.
    pub fn any_bad_nodes(&self) -> (any: bool)
        ensures
            exists|now: Timestamp| any == self@.any_bad_nodes(now),
    {
        self.any_bad_nodes_at(Timestamp::now())
    }

    /// Whether any node of the bucket is bad at `now`.
    pub fn any_bad_nodes_at(&self, now: Timestamp) -> (any: bool)
        ensures
            any == self@.any_bad_nodes(now),
    {
        let mut i: usize = 0;
        while i < self.nodes.len()
            invariant
                i <= self.nodes.len(),
                forall|j: int| 0 <= j < i ==> !self@.is_bad(j, now),
            decreases self.nodes.len() - i,
        {
            if self.nodes[i].is_bad_at(now) {
                assert(self@.is_bad(i as int, now));
                return true;
            }
            i += 1;
        }
        false
    }

    /// Where in the bucket the node with the address is, if the bucket holds it.
    pub fn position_of(&self, address: &Address) -> (found: Option<usize>)
        ensures
            found is Some <==> self@.contains(*address),
            found matches Some(i) ==> i == self@.position(*address) && i < self@.nodes.len()
                && self@.nodes[i as int].address == *address,
    {
        self.first_position(address)
    }

    /// Where in the bucket the first node with the address is, if the bucket holds it.
    fn first_position(&self, address: &Address) -> (found: Option<usize>)
        ensures
            found is Some <==> self@.contains(*address),
            found matches Some(i) ==> i == self@.position(*address) && i < self@.nodes.len()
                && self@.nodes[i as int].address == *address,
    {
        let mut i: usize = 0;
        while i < self.nodes.len()
            invariant
                i <= self.nodes.len(),
                forall|j: int| 0 <= j < i ==> (#[trigger] self@.nodes[j]).address != *address,
            decreases self.nodes.len() - i,
        {
            if self.nodes[i].address() == *address {
                proof {
                    self@.lemma_first_position(i as int);
                }
                return Some(i);
            }
            i += 1;
        }
        proof {
            self@.lemma_contains(*address);
        }
        None
    }

    /// Whether the bucket holds a node with the address.
    pub fn contains(&self, address: &Address) -> (held: bool)
        ensures
            held == self@.contains(*address),
    {
        self.first_position(address).is_some()
    }

    /// Whether the range of the bucket covers the address.
    pub fn covers(&self, address: &Address) -> (covered: bool)
        ensures
            covered == self@.covers(*address),
    {
        let numeric = address.as_numeric();
        self.min.is_at_most(&numeric) && numeric.is_below(&self.max)
    }

    /// The node with the address, to read and to change, if the bucket holds it. The bucket
    /// stays in order as long as the node keeps its address and stays in order itself.
    pub fn find_node(&mut self, address: &Address) -> (found: Option<&mut Node>)
        ensures
            found is Some <==> old(self)@.contains(*address),
            found is None ==> *final(self) == *old(self),
            found matches Some(node) ==> 0 <= old(self)@.position(*address)
                < old(self)@.nodes.len() && node@ == old(self)@.nodes[old(self)@.position(
                *address,
            )],
            found matches Some(node) ==> final(self)@ == old(self)@.with_node_at(
                old(self)@.position(*address),
                final(node)@,
            ),
            found matches Some(node) ==> (old(self)@.wf() && final(node)@.address == *address
                && final(node).wf() ==> final(self)@.wf()),
    {
        match self.first_position(address) {
            Some(i) => Some(self.node_mut(i)),
            None => None,
        }
    }

    /// The node at `position`, to read and to change. The bucket stays in order as long as
    /// the node keeps its address and stays in order itself.
    pub fn node_mut(&mut self, position: usize) -> (node: &mut Node)
        requires
            position < old(self)@.nodes.len(),
        ensures
            node@ == old(self)@.nodes[position as int],
            final(self)@ == old(self)@.with_node_at(position as int, final(node)@),
            old(self)@.wf() && final(node)@.address == node@.address && final(node).wf()
                ==> final(self)@.wf(),
    {
        proof {
            let held = position as int;
            let address = self@.nodes[held].address;
            assert forall|node: NodeView|
                self@.wf() && node.address == address && #[trigger] node.wf() implies self@.with_node_at(
                held,
                node,
            ).wf() by {
                self@.lemma_update_keeps_order(held, node);
            }
            assert forall|node: Node|
                views(#[trigger] self.nodes@.update(held, node)) == self@.nodes.update(held, node@) by {
                assert(views(self.nodes@.update(held, node)) =~= self@.nodes.update(held, node@));
            }
        }
        &mut self.nodes[position]
    }

    /// The nodes of the bucket, most recently touched first.
    pub fn get_nodes(&self) -> (nodes: &Vec<Node>)
        ensures
            views(nodes@) == self@.nodes,
    {
        &self.nodes
    }

    /// The number of nodes that the bucket has room for.
    pub fn capacity(&self) -> (k: usize)
        ensures
            k == self@.k,
    {
        self.k
    }

    /// The addresses of the nodes that are questionable now, in the order of the nodes.
    pub fn questionable_nodes(&self) -> (addresses: Vec<Address>)
        ensures
            exists|now: Timestamp| addresses@ == self@.questionable_nodes(now),
    {
        self.questionable_nodes_at(Timestamp::now())
    }

    /// The addresses of the nodes that are questionable at `now`, in the order of the nodes.
    pub fn questionable_nodes_at(&self, now: Timestamp) -> (addresses: Vec<Address>)
        ensures
            addresses@ == self@.questionable_nodes(now),
    {
        let ghost questionable = |node: NodeView| node.status(now) == Status::Questionable;
        let ghost address_of = |node: NodeView| node.address;
        let mut addresses: Vec<Address> = Vec::new();
        let mut i: usize = 0;
        assert(self@.nodes.take(0).filter(questionable) =~= Seq::empty());
        while i < self.nodes.len()
            invariant
                i <= self.nodes.len(),
                questionable == |node: NodeView| node.status(now) == Status::Questionable,
                address_of == |node: NodeView| node.address,
                addresses@ == self@.nodes.take(i as int).filter(questionable).map_values(
                    address_of,
                ),
            decreases self.nodes.len() - i,
        {
            proof {
                let seen = self@.nodes.take(i as int);
                assert(self@.nodes.take(i + 1) =~= seen.push(self@.nodes[i as int]));
                seen.lemma_filter_push(self@.nodes[i as int], questionable);
            }
            if self.nodes[i].is_questionable_at(now) {
                addresses.push(self.nodes[i].address());
                proof {
                    let kept = self@.nodes.take(i as int).filter(questionable);
                    assert(kept.push(self@.nodes[i as int]).map_values(address_of) =~= kept.map_values(
                        address_of,
                    ).push(self@.nodes[i as int].address));
                }
            }
            i += 1;
        }
        assert(self@.nodes.take(i as int) =~= self@.nodes);
        addresses
    }

    /// Offers `node` to the bucket now.
    pub fn insert(&mut self, node: Node) -> (outcome: InsertionResult)
        ensures
            exists|now: Timestamp| (outcome, final(self)@) == old(self)@.insert(node@, now),
            old(self)@.wf() && node.wf() ==> final(self)@.wf(),
    {
        self.insert_at(node, Timestamp::now())
    }

    /// Makes the node at `held` the most recently touched.
    fn move_to_front(&mut self, held: usize, now: Timestamp)
        requires
            held < old(self)@.nodes.len(),
        ensures
            final(self)@ == old(self)@.touched_with(
                old(self)@.nodes.remove(held as int).insert(0, old(self)@.nodes[held as int]),
                now,
            ),
    {
        let ghost before = self.nodes@;
        let touched = self.nodes.remove(held);
        self.nodes.insert(0, touched);
        self.last_inserted = now;
        assert(views(self.nodes@) =~= views(before).remove(held as int).insert(
            0,
            views(before)[held as int],
        ));
    }

    /// Puts the node in front of the others.
    fn put_in_front(&mut self, node: Node, now: Timestamp)
        ensures
            final(self)@ == old(self)@.touched_with(old(self)@.nodes.insert(0, node@), now),
    {
        let ghost before = self.nodes@;
        self.nodes.insert(0, node);
        self.last_inserted = now;
        assert(views(self.nodes@) =~= views(before).insert(0, node@));
    }

    /// Offers `node` to the bucket at `now`.
    pub fn insert_at(&mut self, node: Node, now: Timestamp) -> (outcome: InsertionResult)
        ensures
            (outcome, final(self)@) == old(self)@.insert(node@, now),
            old(self)@.wf() && node.wf() ==> final(self)@.wf(),
    {
        proof {
            if self@.wf() && node.wf() {
                self@.lemma_insert_keeps_order(node@, now);
            }
        }
        let address = node.address();
        if !self.covers(&address) {
            return Err(NotCovered { address });
        }
        match self.first_position(&address) {
            Some(held) => {
                self.move_to_front(held, now);
                Ok(InsertOutcome::Updated)
            },
            None => {
                if !self.is_full() {
                    self.put_in_front(node, now);
                    Ok(InsertOutcome::Inserted)
                } else {
                    Ok(InsertOutcome::Discarded)
                }
            },
        }
    }

    /// Sends a ping to each node that is questionable at `now`: notes the query with the node
    /// and puts the message for it in the outbox. Each ping opens a transaction of its own.
    pub fn probe_questionable_at(
        &mut self,
        self_node: &Node,
        transaction_ids: &mut TransactionIdGenerator,
        outbox: &mut Vec<Outgoing>,
        now: Timestamp,
    )
        ensures
            final(self)@ == old(self)@.probed(old(transaction_ids).last_id(), now),
            final(transaction_ids).last_id() == TransactionIdGenerator::nth_after(
                old(transaction_ids).last_id(),
                probes(old(self)@.nodes, old(transaction_ids).last_id(), now).len(),
            ),
            final(outbox)@.len() == old(outbox)@.len() + probes(
                old(self)@.nodes,
                old(transaction_ids).last_id(),
                now,
            ).len(),
            final(outbox)@.take(old(outbox)@.len() as int) == old(outbox)@,
            sends_pings(
                final(outbox)@.skip(old(outbox)@.len() as int),
                probes(old(self)@.nodes, old(transaction_ids).last_id(), now),
                self_node@,
            ),
            old(self)@.wf() ==> final(self)@.wf(),
    {
        proof {
            if self@.wf() {
                self@.lemma_probed_keeps_order(transaction_ids.last_id(), now);
            }
        }
        let ghost before = self@;
        let ghost last_id = transaction_ids.last_id();
        let ghost posted = outbox@;
        let mut i: usize = 0;
        proof {
            assert(before.nodes.take(0) =~= Seq::empty());
            assert(before.nodes.skip(0) =~= before.nodes);
            assert(outbox@.skip(posted.len() as int) =~= Seq::empty());
            assert(outbox@.take(posted.len() as int) =~= posted);
            TransactionIdGenerator::lemma_nth_after_step(last_id, 0);
        }
        while i < self.nodes.len()
            invariant
                i <= self.nodes.len(),
                self.nodes.len() == before.nodes.len(),
                self@ == (NodeBucketView { nodes: self@.nodes, ..before }),
                self@.nodes == probed(before.nodes.take(i as int), last_id, now) + before.nodes.skip(
                    i as int,
                ),
                transaction_ids.last_id() == TransactionIdGenerator::nth_after(
                    last_id,
                    probes(before.nodes.take(i as int), last_id, now).len(),
                ),
                outbox@.len() == posted.len() + probes(before.nodes.take(i as int), last_id, now).len(),
                outbox@.take(posted.len() as int) == posted,
                sends_pings(
                    outbox@.skip(posted.len() as int),
                    probes(before.nodes.take(i as int), last_id, now),
                    self_node@,
                ),
            decreases self.nodes.len() - i,
        {
            let ghost seen = before.nodes.take(i as int);
            let ghost next = before.nodes.take(i + 1);
            let ghost current = self.nodes@;
            let ghost sent = outbox@;
            proof {
                assert(next.drop_last() =~= seen);
                assert(next.last() == before.nodes[i as int]);
                lemma_probed_keeps(seen, last_id, now);
                assert(self@.nodes[i as int] == before.nodes[i as int]);
                TransactionIdGenerator::lemma_nth_after_step(
                    last_id,
                    probes(seen, last_id, now).len(),
                );
            }
            if self.nodes[i].is_questionable_at(now) {
                let transaction_id = transaction_ids.generate();
                let transports = copy_transports(self.nodes[i].transports());
                self.nodes[i].sent_query_at(transaction_id, now);
                outbox.push(
                    Outgoing { transports, envelope: create_ping_query(transaction_id, self_node) },
                );
                proof {
                    assert(views(self.nodes@) =~= views(current).update(
                        i as int,
                        self.nodes@[i as int]@,
                    ));
                    assert(outbox@.skip(posted.len() as int) =~= sent.skip(posted.len() as int).push(
                        outbox@.last(),
                    ));
                    assert(outbox@.take(posted.len() as int) =~= sent.take(posted.len() as int));
                }
            }
            i += 1;
            proof {
                lemma_probed_keeps(next, last_id, now);
                assert(self@.nodes =~= probed(next, last_id, now) + before.nodes.skip(i as int));
            }
        }
        proof {
            assert(before.nodes.take(i as int) =~= before.nodes);
            lemma_probed_keeps(before.nodes, last_id, now);
            assert(self@.nodes =~= probed(before.nodes, last_id, now));
        }
    }

    /// Whether the bucket has no room left.
    pub fn is_full(&self) -> (full: bool)
        ensures
            full == self@.is_full(),
    {
        self.nodes.len() >= self.k
    }

    /// When the bucket last changed.
    pub fn last_changed(&self) -> (changed: Timestamp)
        ensures
            changed == self@.last_changed(),
    {
        let mut changed = self.last_inserted;
        let mut i: usize = 0;
        assert(self@.nodes.take(0) =~= Seq::empty());
        while i < self.nodes.len()
            invariant
                i <= self.nodes.len(),
                changed == latest_seen(self@.nodes.take(i as int), self@.last_inserted),
            decreases self.nodes.len() - i,
        {
            assert(self@.nodes.take(i + 1).drop_last() =~= self@.nodes.take(i as int));
            changed = changed.latest(self.nodes[i].last_seen());
            i += 1;
        }
        assert(self@.nodes.take(i as int) =~= self@.nodes);
        changed
    }

    /// Whether the bucket has not changed for more than [`MINUTES_UNTIL_NEEDS_REFRESH`]
    /// minutes now.
    pub fn needs_refresh(&self) -> (stale: bool)
        ensures
            exists|now: Timestamp| stale == self@.needs_refresh(now),
    {
        self.needs_refresh_at(Timestamp::now())
    }

    /// Whether at `now` the bucket has not changed for more than
    /// [`MINUTES_UNTIL_NEEDS_REFRESH`] minutes.
    pub fn needs_refresh_at(&self, now: Timestamp) -> (stale: bool)
        ensures
            stale == self@.needs_refresh(now),
    {
        let changed = self.last_changed();
        now.is_minutes_past(&changed, MINUTES_UNTIL_NEEDS_REFRESH)
    }

    /// Removes the worst of the nodes that are bad now, if any is.
    pub fn remove_worst_node(&mut self)
        ensures
            exists|now: Timestamp| final(self)@ == old(self)@.remove_worst_node(now),
            old(self)@.wf() ==> final(self)@.wf(),
    {
        self.remove_worst_node_at(Timestamp::now())
    }

    /// Removes the worst of the nodes that are bad at `now`, if any is: of the bad nodes with
    /// the most queries unanswered, the one touched least recently.
    pub fn remove_worst_node_at(&mut self, now: Timestamp)
        ensures
            final(self)@ == old(self)@.remove_worst_node(now),
            old(self)@.wf() ==> final(self)@.wf(),
    {
        let mut worst: Option<usize> = None;
        let mut most_pending: usize = 0;
        let mut i: usize = 0;
        while i < self.nodes.len()
            invariant
                i <= self.nodes.len(),
                *self == *old(self),
                match worst {
                    None => forall|j: int| 0 <= j < i ==> !self@.is_bad(j, now),
                    Some(at) => self@.is_worst_among(at as int, i as int, now) && most_pending
                        == self@.nodes[at as int].pending_query_count(),
                },
            decreases self.nodes.len() - i,
        {
            if self.nodes[i].is_bad_at(now) {
                let pending = self.nodes[i].pending_query_count();
                assert(self@.is_bad(i as int, now));
                if worst.is_none() || pending >= most_pending {
                    worst = Some(i);
                    most_pending = pending;
                }
            }
            i += 1;
        }
        match worst {
            Some(at) => {
                proof {
                    assert(self@.is_worst(at as int, now));
                    self@.lemma_worst_is_unique(at as int, now);
                    if self@.wf() {
                        self@.lemma_remove_keeps_order(at as int);
                    }
                }
                let ghost before = self.nodes@;
                self.nodes.remove(at);
                assert(views(self.nodes@) =~= views(before).remove(at as int));
            },
            None => {},
        }
    }

    /// Parts the bucket at the number halfway between its bounds: into a bucket for the
    /// numbers below it and a bucket for the others, each with the nodes that it covers.
    pub fn split(self) -> (halves: (NodeBucket, NodeBucket))
        requires
            self@.min <= self@.max,
        ensures
            (halves.0@, halves.1@) == self@.split(),
            self@.wf() ==> halves.0@.wf() && halves.1@.wf(),
    {
        proof {
            if self@.wf() {
                self@.lemma_split_keeps_order();
            }
        }
        let ghost whole = self@;
        let NodeBucket { k, min, max, nodes, last_inserted } = self;
        let partition = max.difference(&min).half().sum_within(&min, &max);
        let mut nodes = nodes;
        let mut lower: Vec<Node> = Vec::new();
        let mut upper: Vec<Node> = Vec::new();
        let ghost mut moved: int = 0;
        proof {
            assert(whole.nodes.take(0) =~= Seq::empty());
            assert(whole.nodes.skip(0) =~= whole.nodes);
            assert(views(lower@) =~= Seq::empty());
            assert(views(upper@) =~= Seq::empty());
            reveal(Seq::filter);
        }
        while nodes.len() > 0
            invariant
                0 <= moved <= whole.nodes.len(),
                partition@ == whole.partition(),
                views(nodes@) == whole.nodes.skip(moved),
                views(lower@) == whole.nodes.take(moved).filter(is_below(whole.partition())),
                views(upper@) == whole.nodes.take(moved).filter(is_not_below(whole.partition())),
            decreases nodes.len(),
        {
            let ghost waiting = nodes@;
            let ghost low = lower@;
            let ghost high = upper@;
            let node = nodes.remove(0);
            proof {
                let seen = whole.nodes.take(moved);
                assert(node@ == views(waiting)[0]);
                assert(views(waiting).len() == waiting.len());
                assert(whole.nodes.skip(moved).len() == whole.nodes.len() - moved);
                assert(views(waiting)[0] == whole.nodes.skip(moved)[0]);
                assert(node@ == whole.nodes[moved]);
                assert(whole.nodes.take(moved + 1) =~= seen.push(node@));
                assert(views(nodes@) =~= views(waiting).remove(0));
                assert(views(waiting).remove(0) =~= whole.nodes.skip(moved + 1));
                seen.lemma_filter_push(node@, is_below(whole.partition()));
                seen.lemma_filter_push(node@, is_not_below(whole.partition()));
                moved = moved + 1;
            }
            if node.address().as_numeric().is_below(&partition) {
                lower.push(node);
                assert(views(lower@) =~= views(low).push(node@));
            } else {
                upper.push(node);
                assert(views(upper@) =~= views(high).push(node@));
            }
        }
        proof {
            assert(whole.nodes.take(moved) =~= whole.nodes);
        }
        (
            NodeBucket { k, min, max: partition, nodes: lower, last_inserted },
            NodeBucket { k, min: partition, max, nodes: upper, last_inserted },
        )
    }

    /// A random address in the range of the bucket, drawn with the generator.
    pub fn random_address_in_space_with(&self, generator: &mut StdRng) -> (address: Address)
        requires
            self@.min < self@.max,
        ensures
            exists|number: nat| self@.min <= number < self@.max && address == Address::of(number),
            self@.max <= space_size() ==> self@.covers(address),
    {
        Address::random_with(generator, &self.min, &self.max)
    }

    /// A random address in the range of the bucket, or nothing where the operating system has
    /// no randomness to give.
    pub fn random_address_in_space(&self) -> (drawn: Option<Address>)
        requires
            self@.min < self@.max,
        ensures
            drawn matches Some(address) ==> exists|number: nat|
                self@.min <= number < self@.max && address == Address::of(number),
            drawn matches Some(address) ==> self@.max <= space_size() ==> self@.covers(address),
    {
        Address::random(&self.min, &self.max)
    }
}

/// A bucket never holds more nodes than it has room for, whatever it is offered.
pub proof fn lemma_capacity(bucket: NodeBucketView, node: NodeView, now: Timestamp)
    requires
        bucket.wf(),
        node.wf(),
    ensures
        bucket.insert(node, now).1.nodes.len() <= bucket.k,
        bucket.insert(node, now).1.k == bucket.k,
{
    bucket.lemma_insert_keeps_order(node, now);
}

/// A node offered to a bucket a second time does not go in twice. Where the bucket took
/// the node in or knew it already, it says `Updated` the second time, holds what it held, and
/// has the node as its most recently touched.
pub proof fn lemma_insert_twice(
    bucket: NodeBucketView,
    first: NodeView,
    second: NodeView,
    now: Timestamp,
    later: Timestamp,
)
    requires
        bucket.wf(),
        first.wf(),
        first.address == second.address,
        bucket.insert(first, now).0 == Ok::<InsertOutcome, NotCovered>(InsertOutcome::Inserted)
            || bucket.insert(first, now).0 == Ok::<InsertOutcome, NotCovered>(
            InsertOutcome::Updated,
        ),
    ensures
        bucket.insert(first, now).1.insert(second, later).0 == Ok::<InsertOutcome, NotCovered>(
            InsertOutcome::Updated,
        ),
        bucket.insert(first, now).1.insert(second, later).1.nodes == bucket.insert(first, now).1.nodes,
        bucket.insert(first, now).1.nodes[0].address == first.address,
        bucket.insert(first, now).1.insert(second, later).1.addresses().no_duplicates(),
{
    let once = bucket.insert(first, now).1;
    bucket.lemma_insert_keeps_order(first, now);
    assert(once.nodes.len() > 0 && once.nodes[0].address == first.address) by {
        if bucket.contains(first.address) {
            bucket.lemma_contains(first.address);
        }
    }
    once.lemma_first_position(0);
    assert(once.nodes.remove(0).insert(0, once.nodes[0]) =~= once.nodes);
}

} // verus!
