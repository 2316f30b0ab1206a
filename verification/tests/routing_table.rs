use comm::address::{Address, Addressable};
use comm::messages::outgoing::Outgoing;
use comm::node::{Node, Transport, UdpTransport, FAILED_TO_RESPOND_THRESHOLD, MINUTES_UNTIL_QUESTIONABLE};
use comm::routing_table::{InsertOutcome, NodeHandle, RoutingTable};
use comm::timestamp::Timestamp;
use comm::transaction::TransactionIdGenerator;
use rand::Rng;

fn stamp(time: time::Tm) -> Timestamp {
    let time = time.to_timespec();
    Timestamp::new(time.sec, time.nsec)
}

fn new_node(address: Address, last_received_response: Timestamp, pending_queries: u32) -> Node {
    let port = rand::thread_rng().gen_range(1000, 10000);
    let transports = vec![Transport::Udp(UdpTransport::new([0, 0, 0, 0], port))];
    let mut node = Node::new_at(address, transports, last_received_response);
    for id in 0..pending_queries {
        node.sent_query(id);
    }
    node
}

fn good_node(address: Address) -> Node {
    new_node(address, stamp(time::now_utc()), 0)
}

fn bad_node(address: Address) -> Node {
    let last_received_response =
        time::now_utc() - time::Duration::minutes(MINUTES_UNTIL_QUESTIONABLE + 1);
    new_node(address, stamp(last_received_response), FAILED_TO_RESPOND_THRESHOLD as u32 + 1)
}

fn address(text: &str) -> Address {
    Address::from_str(text).unwrap()
}

fn nodes_in(table: &RoutingTable) -> Vec<Vec<Address>> {
    table
        .buckets()
        .iter()
        .map(|bucket| bucket.get_nodes().iter().map(|node| node.address()).collect())
        .collect()
}

#[test]
fn routing_table_test_insert() {
    let self_address = address("0000000000000000000000000000000000000000");
    let self_node: Node = good_node(self_address);
    let mut transaction_ids = TransactionIdGenerator::new();
    let mut outbox: Vec<Outgoing> = Vec::new();
    let router = good_node(Address::null());
    let mut table: RoutingTable = RoutingTable::new(2, self_address, vec![router]);
    let node_1 = good_node(address("0000000000000000000000000000000000000001"));
    let node_2 = good_node(address("ffffffffffffffffffffffffffffffffffffffff"));
    table.insert(node_1, &self_node, &mut transaction_ids, &mut outbox).unwrap();
    table.insert(node_2, &self_node, &mut transaction_ids, &mut outbox).unwrap();
    assert_eq!(table.buckets().len(), 1);

    // Splits buckets upon adding a k+1th node in the same space as self node
    let node_3 = good_node(address("fffffffffffffffffffffffffffffffffffffffe"));
    table.insert(node_3, &self_node, &mut transaction_ids, &mut outbox).unwrap();
    assert_eq!(table.buckets().len(), 2);
    let node_4 = good_node(address("7fffffffffffffffffffffffffffffffffffffff"));
    let node_5 = good_node(address("7ffffffffffffffffffffffffffffffffffffffe"));
    table.insert(node_4, &self_node, &mut transaction_ids, &mut outbox).unwrap();
    table.insert(node_5, &self_node, &mut transaction_ids, &mut outbox).unwrap();
    assert_eq!(table.buckets().len(), 3);

    // Replaces instead of duplicates existing nodes
    let node_6 = good_node(address("0000000000000000000000000000000000000001"));
    let node_7 = good_node(address("0000000000000000000000000000000000000001"));
    let node_8 = good_node(address("0000000000000000000000000000000000000001"));
    table.insert(node_6, &self_node, &mut transaction_ids, &mut outbox).unwrap();
    table.insert(node_7, &self_node, &mut transaction_ids, &mut outbox).unwrap();
    table.insert(node_8, &self_node, &mut transaction_ids, &mut outbox).unwrap();
    assert_eq!(table.buckets().len(), 3);

    // Disregards new nodes for full, non-self space buckets
    let node_9 = good_node(address("fffffffffffffffffffffffffffffffffffffffd"));
    let node_10 = good_node(address("fffffffffffffffffffffffffffffffffffffffc"));
    let node_11 = good_node(address("fffffffffffffffffffffffffffffffffffffffb"));
    table.insert(node_9, &self_node, &mut transaction_ids, &mut outbox).unwrap();
    table.insert(node_10, &self_node, &mut transaction_ids, &mut outbox).unwrap();
    table.insert(node_11, &self_node, &mut transaction_ids, &mut outbox).unwrap();
    assert_eq!(table.buckets().len(), 3);

    // Ignores self-node
    let node_12 = good_node(self_address);
    assert_eq!(
        table.insert(node_12, &self_node, &mut transaction_ids, &mut outbox).unwrap(),
        InsertOutcome::Ignored
    );
    assert_eq!(table.buckets().len(), 3);
}

#[test]
fn test_nearest_live_node_to() {
    let self_address = address("0000000000000000000000000000000000000000");
    let self_node: Node = good_node(self_address);
    let mut transaction_ids = TransactionIdGenerator::new();
    let mut outbox: Vec<Outgoing> = Vec::new();
    let router = good_node(Address::null());
    let mut table: RoutingTable = RoutingTable::new(2, self_address, vec![router]);
    let addr_1 = address("0000000000000000000000000000000000000001");
    let addr_2 = address("7ffffffffffffffffffffffffffffffffffffffe");
    let addr_3 = address("ffffffffffffffffffffffffffffffffffffffff");
    let node_1 = good_node(addr_1);
    let node_2 = good_node(addr_2);
    let node_3 = good_node(addr_3);
    table.insert(node_1, &self_node, &mut transaction_ids, &mut outbox).unwrap();
    table.insert(node_2, &self_node, &mut transaction_ids, &mut outbox).unwrap();
    table.insert(node_3, &self_node, &mut transaction_ids, &mut outbox).unwrap();

    {
        let nearest = table.nearest_live_nodes_to(
            &address("fffffffffffffffffffffffffffffffffffffffd"),
            false,
        );
        assert_eq!(table.node(nearest[0]).address(), addr_3);
        assert_eq!(table.node(nearest[1]).address(), addr_2);
        assert_eq!(nearest.len(), 2);
    }
    {
        let nearest = table.nearest_live_nodes_to(
            &address("0000000000000000000000000000000000000002"),
            false,
        );
        assert_eq!(table.node(nearest[0]).address(), addr_1);
        assert_eq!(table.node(nearest[1]).address(), addr_2);
    }
}

#[test]
fn test_three_nodes_in_a_table_for_two_make_two_buckets() {
    let now = Timestamp::new(1_000, 0);
    let self_address = address("0000000000000000000000000000000000000000");
    let self_node = Node::new_at(self_address, vec![], now);
    let mut transaction_ids = TransactionIdGenerator::new();
    let mut outbox: Vec<Outgoing> = Vec::new();
    let mut table = RoutingTable::new(2, self_address, vec![]);
    let low = address("0000000000000000000000000000000000000001");
    let high = address("ffffffffffffffffffffffffffffffffffffffff");
    let next = address("fffffffffffffffffffffffffffffffffffffffe");
    for (node_address, outcome, buckets) in [(low, InsertOutcome::Inserted, 1), (high, InsertOutcome::Inserted, 1), (next, InsertOutcome::Inserted, 2)] {
        let node = Node::new_at(node_address, vec![], now);
        assert_eq!(table.insert_at(node, &self_node, &mut transaction_ids, &mut outbox, now), Ok(outcome));
        assert_eq!(table.buckets().len(), buckets);
    }
    assert_eq!(nodes_in(&table), vec![vec![low], vec![next, high]]);
    assert!(table.buckets()[0].covers(&self_address));
    assert!(table.buckets()[0].covers(&address("7fffffffffffffffffffffffffffffffffffffff")));
    assert!(table.buckets()[1].covers(&address("8000000000000000000000000000000000000000")));
    assert!(outbox.is_empty());
}

#[test]
fn test_inserting_our_own_address_is_ignored() {
    let now = Timestamp::new(1_000, 0);
    let self_address = Address::for_content("self");
    let self_node = Node::new_at(self_address, vec![], now);
    let mut transaction_ids = TransactionIdGenerator::new();
    let mut outbox: Vec<Outgoing> = Vec::new();
    let mut table = RoutingTable::new(2, self_address, vec![]);
    table.insert_at(Node::new_at(Address::for_content("a"), vec![], now), &self_node, &mut transaction_ids, &mut outbox, now).unwrap();
    let before = nodes_in(&table);
    assert_eq!(
        table.insert_at(Node::new_at(self_address, vec![], now), &self_node, &mut transaction_ids, &mut outbox, now),
        Ok(InsertOutcome::Ignored)
    );
    assert_eq!(nodes_in(&table), before);
    assert_eq!(table.buckets().len(), 1);
    assert_eq!(table.self_address(), self_address);
}

#[test]
fn test_only_the_bucket_around_our_own_address_splits() {
    let now = Timestamp::new(1_000, 0);
    let self_address = address("0000000000000000000000000000000000000000");
    let self_node = Node::new_at(self_address, vec![], now);
    let mut transaction_ids = TransactionIdGenerator::new();
    let mut outbox: Vec<Outgoing> = Vec::new();
    let mut table = RoutingTable::new(2, self_address, vec![]);
    let high = [
        "ffffffffffffffffffffffffffffffffffffffff",
        "fffffffffffffffffffffffffffffffffffffffe",
        "fffffffffffffffffffffffffffffffffffffffd",
        "c000000000000000000000000000000000000000",
        "8000000000000000000000000000000000000000",
    ];
    let mut outcomes = Vec::new();
    for text in high {
        let node = Node::new_at(address(text), vec![], now);
        outcomes.push(table.insert_at(node, &self_node, &mut transaction_ids, &mut outbox, now).unwrap());
    }
    assert_eq!(
        outcomes,
        vec![
            InsertOutcome::Inserted,
            InsertOutcome::Inserted,
            InsertOutcome::Discarded,
            InsertOutcome::Discarded,
            InsertOutcome::Discarded
        ]
    );
    assert_eq!(table.buckets().len(), 2);
    assert_eq!(nodes_in(&table), vec![vec![], vec![address(high[1]), address(high[0])]]);
    // each discarded node had the two questionable nodes of its bucket pinged
    assert_eq!(outbox.len(), 6);
    let ids: Vec<u32> = outbox.iter().map(|message| message.envelope.transaction_id).collect();
    assert_eq!(ids, vec![1, 2, 3, 4, 5, 6]);
    assert_eq!(table.buckets()[1].get_nodes()[0].pending_query_count(), 3);
}

#[test]
fn test_buckets_part_the_address_space() {
    let now = Timestamp::new(1_000, 0);
    let self_address = address("0000000000000000000000000000000000000000");
    let self_node = Node::new_at(self_address, vec![], now);
    let mut transaction_ids = TransactionIdGenerator::new();
    let mut outbox: Vec<Outgoing> = Vec::new();
    let mut table = RoutingTable::new(1, self_address, vec![]);
    for i in 0..200 {
        let node = Node::new_at(Address::for_content(&format!("node {}", i)), vec![], now);
        table.insert_at(node, &self_node, &mut transaction_ids, &mut outbox, now).unwrap();
    }
    assert!(table.buckets().len() > 2);
    assert!(table.buckets().len() <= 160);
    for probe in 0..100 {
        let target = Address::for_content(&format!("probe {}", probe));
        let covering = table.buckets().iter().filter(|bucket| bucket.covers(&target)).count();
        assert_eq!(covering, 1);
    }
    for bucket in table.buckets() {
        assert!(bucket.get_nodes().len() <= 1);
        for node in bucket.get_nodes() {
            assert!(bucket.covers(&node.address()));
        }
    }
    assert!(table.buckets()[0].covers(&self_address));
    assert!(table.buckets().last().unwrap().covers(&address("ffffffffffffffffffffffffffffffffffffffff")));
}

#[test]
fn test_table_stops_splitting_at_as_many_buckets_as_an_address_has_bits() {
    let now = Timestamp::new(1_000, 0);
    let self_address = address("0000000000000000000000000000000000000000");
    let self_node = Node::new_at(self_address, vec![], now);
    let mut transaction_ids = TransactionIdGenerator::new();
    let mut outbox: Vec<Outgoing> = Vec::new();
    let mut table = RoutingTable::new(1, self_address, vec![]);
    for number in 1..8u32 {
        let node = Node::new_at(Address::from_numeric(comm::numeric::Numeric::new(0, number as u128)), vec![], now);
        table.insert_at(node, &self_node, &mut transaction_ids, &mut outbox, now).unwrap();
    }
    assert_eq!(table.buckets().len(), 160);
    let held: Vec<Vec<Address>> = nodes_in(&table).into_iter().filter(|nodes| !nodes.is_empty()).collect();
    let numbered = |number: u128| Address::from_numeric(comm::numeric::Numeric::new(0, number));
    assert_eq!(held, vec![vec![numbered(1)], vec![numbered(2)], vec![numbered(4)]]);
}

#[test]
fn test_nearest_leaves_out_bad_nodes_and_falls_back_on_routers() {
    let self_address = address("0000000000000000000000000000000000000000");
    let self_node = good_node(self_address);
    let mut transaction_ids = TransactionIdGenerator::new();
    let mut outbox: Vec<Outgoing> = Vec::new();
    let routers = vec![good_node(Address::null()), good_node(Address::null()), good_node(Address::null())];
    let mut table = RoutingTable::new(3, self_address, routers);
    assert_eq!(
        table.nearest(),
        vec![NodeHandle::Router { index: 0 }, NodeHandle::Router { index: 1 }, NodeHandle::Router { index: 2 }]
    );
    let near = address("0000000000000000000000000000000000000004");
    let far = address("0000000000000000000000000000000000000100");
    let dead = address("0000000000000000000000000000000000000001");
    table.insert(good_node(far), &self_node, &mut transaction_ids, &mut outbox).unwrap();
    table.insert(bad_node(dead), &self_node, &mut transaction_ids, &mut outbox).unwrap();
    table.insert(good_node(near), &self_node, &mut transaction_ids, &mut outbox).unwrap();
    let nearest = table.nearest();
    assert_eq!(nearest.len(), 3);
    assert_eq!(table.node(nearest[0]).address(), near);
    assert_eq!(table.node(nearest[1]).address(), far);
    assert_eq!(nearest[2], NodeHandle::Router { index: 0 });
    assert_eq!(table.nearest_live_nodes_to(&self_address, false).len(), 2);
    assert_eq!(table.routers().len(), 3);
}

#[test]
fn test_find_node_and_handles() {
    let now = Timestamp::new(1_000, 0);
    let self_address = address("0000000000000000000000000000000000000000");
    let self_node = Node::new_at(self_address, vec![], now);
    let mut transaction_ids = TransactionIdGenerator::new();
    let mut outbox: Vec<Outgoing> = Vec::new();
    let mut table = RoutingTable::new(2, self_address, vec![Node::new_at(Address::null(), vec![], now)]);
    let known = Address::for_content("known");
    table.insert_at(Node::new_at(known, vec![], now), &self_node, &mut transaction_ids, &mut outbox, now).unwrap();
    assert!(table.find_node(&Address::for_content("unknown")).is_none());
    table.find_node(&known).unwrap().sent_query_at(4, now);
    assert_eq!(table.handle_for(&known), Some(NodeHandle::Known { bucket: 0, position: 0 }));
    assert_eq!(table.handle_for(&Address::for_content("unknown")), None);
    assert_eq!(table.node(NodeHandle::Known { bucket: 0, position: 0 }).pending_query_count(), 1);
    table.node_mut(NodeHandle::Router { index: 0 }).sent_query_at(5, now);
    assert_eq!(table.node(NodeHandle::Router { index: 0 }).pending_query_count(), 1);
}

#[test]
fn test_questionable_nodes_walk_the_table() {
    let now = Timestamp::new(1_000, 0);
    let self_address = address("0000000000000000000000000000000000000000");
    let self_node = Node::new_at(self_address, vec![], now);
    let mut transaction_ids = TransactionIdGenerator::new();
    let mut outbox: Vec<Outgoing> = Vec::new();
    let mut table = RoutingTable::new(2, self_address, vec![]);
    for text in [
        "0000000000000000000000000000000000000001",
        "ffffffffffffffffffffffffffffffffffffffff",
        "fffffffffffffffffffffffffffffffffffffffe",
    ] {
        table.insert_at(Node::new_at(address(text), vec![], now), &self_node, &mut transaction_ids, &mut outbox, now).unwrap();
    }
    let answered = table.find_node(&address("ffffffffffffffffffffffffffffffffffffffff")).unwrap();
    answered.sent_query_at(1, now);
    answered.received_response_at(1, now);
    assert_eq!(
        table.questionable_nodes_at(now),
        vec![NodeHandle::Known { bucket: 0, position: 0 }, NodeHandle::Known { bucket: 1, position: 0 }]
    );
    // by the clock of today the answer is long ago
    assert_eq!(table.questionable_nodes().len(), 3);
}

#[test]
fn test_bucket_needing_refresh() {
    let now = Timestamp::new(100_000, 0);
    let self_address = address("0000000000000000000000000000000000000000");
    let self_node = Node::new_at(self_address, vec![], now);
    let mut transaction_ids = TransactionIdGenerator::new();
    let mut outbox: Vec<Outgoing> = Vec::new();
    let mut table = RoutingTable::new(1, self_address, vec![]);
    assert!(table.bucket_needing_refresh().is_some());
    assert_eq!(table.stale_buckets_at(now), vec![0]);
    for text in [
        "0000000000000000000000000000000000000001",
        "ffffffffffffffffffffffffffffffffffffffff",
        "4000000000000000000000000000000000000000",
    ] {
        table.insert_at(Node::new_at(address(text), vec![], now), &self_node, &mut transaction_ids, &mut outbox, now).unwrap();
    }
    assert_eq!(table.buckets().len(), 3);
    assert_eq!(table.stale_buckets_at(now), Vec::<usize>::new());
    assert!(table.bucket_needing_refresh_at(now).is_none());
    let later = Timestamp::new(100_000 + 15 * 60, 1);
    assert_eq!(table.stale_buckets_at(later), vec![0, 1, 2]);
    table.find_node(&address("4000000000000000000000000000000000000000")).unwrap().received_query_at(1, later);
    assert_eq!(table.stale_buckets_at(later), vec![0, 2]);
    for _ in 0..20 {
        let stale = table.bucket_needing_refresh_at(later).unwrap();
        assert!(stale.needs_refresh_at(later));
        assert!(!stale.covers(&address("4000000000000000000000000000000000000000")));
    }
}

#[test]
fn test_table_makes_room_in_a_full_bucket_by_removing_its_worst_bad_node() {
    let now = Timestamp::new(1_000, 0);
    let self_address = address("0000000000000000000000000000000000000000");
    let self_node = Node::new_at(self_address, vec![], now);
    let mut transaction_ids = TransactionIdGenerator::new();
    let mut outbox: Vec<Outgoing> = Vec::new();
    let mut table = RoutingTable::new(2, self_address, vec![]);
    let first = address("ffffffffffffffffffffffffffffffffffffffff");
    let failing = address("fffffffffffffffffffffffffffffffffffffffe");
    let near = address("0000000000000000000000000000000000000001");
    let new = address("c000000000000000000000000000000000000000");
    let mut bad = Node::new_at(failing, vec![], now);
    for id in 100..106 {
        bad.sent_query_at(id, now);
    }
    table.insert_at(Node::new_at(first, vec![], now), &self_node, &mut transaction_ids, &mut outbox, now).unwrap();
    table.insert_at(bad, &self_node, &mut transaction_ids, &mut outbox, now).unwrap();
    table.insert_at(Node::new_at(near, vec![], now), &self_node, &mut transaction_ids, &mut outbox, now).unwrap();
    assert_eq!(nodes_in(&table), vec![vec![near], vec![failing, first]]);
    // the bucket for the new node is full and may not split: its bad node makes room
    let outcome = table.insert_at(Node::new_at(new, vec![], now), &self_node, &mut transaction_ids, &mut outbox, now);
    assert_eq!(outcome, Ok(InsertOutcome::Inserted));
    assert_eq!(nodes_in(&table), vec![vec![near], vec![new, first]]);
    assert!(outbox.is_empty());
    // with no bad node left the next one is discarded, and the questionable nodes are pinged
    let next = address("d000000000000000000000000000000000000000");
    let outcome = table.insert_at(Node::new_at(next, vec![], now), &self_node, &mut transaction_ids, &mut outbox, now);
    assert_eq!(outcome, Ok(InsertOutcome::Discarded));
    assert_eq!(nodes_in(&table), vec![vec![near], vec![new, first]]);
    assert_eq!(outbox.len(), 2);
    // a node that the bucket holds is touched, and no node makes room for it
    let mut again = Node::new_at(first, vec![], now);
    again.sent_query_at(1, now);
    table.find_node(&new).unwrap().sent_query_at(1, now);
    for id in 200..206 {
        table.find_node(&new).unwrap().sent_query_at(id, now);
    }
    let outcome = table.insert_at(again, &self_node, &mut transaction_ids, &mut outbox, now);
    assert_eq!(outcome, Ok(InsertOutcome::Updated));
    assert_eq!(nodes_in(&table), vec![vec![near], vec![first, new]]);
}

#[test]
fn test_bucket_needing_refresh_with_a_generator() {
    let mut generator = rand::StdRng::new().expect("no randomness");
    let now = Timestamp::new(100_000, 0);
    let self_address = address("0000000000000000000000000000000000000000");
    let self_node = Node::new_at(self_address, vec![], now);
    let mut transaction_ids = TransactionIdGenerator::new();
    let mut outbox: Vec<Outgoing> = Vec::new();
    let mut table = RoutingTable::new(1, self_address, vec![]);
    assert!(table.bucket_needing_refresh_with(&mut generator, now).is_some());
    for text in [
        "0000000000000000000000000000000000000001",
        "ffffffffffffffffffffffffffffffffffffffff",
        "4000000000000000000000000000000000000000",
    ] {
        table.insert_at(Node::new_at(address(text), vec![], now), &self_node, &mut transaction_ids, &mut outbox, now).unwrap();
    }
    assert!(table.bucket_needing_refresh_with(&mut generator, now).is_none());
    let later = Timestamp::new(100_000 + 15 * 60, 1);
    let mut low = 0;
    let mut high = 0;
    for _ in 0..200 {
        let stale = table.bucket_needing_refresh_with(&mut generator, later).unwrap();
        assert!(stale.needs_refresh_at(later));
        if stale.covers(&self_address) {
            low += 1;
        }
        if stale.covers(&address("ffffffffffffffffffffffffffffffffffffffff")) {
            high += 1;
        }
    }
    // two hundred picks out of three buckets do not all fall on the same one
    assert!(low > 0 && high > 0 && low + high < 200);
}
