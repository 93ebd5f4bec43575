use p2p_dht::health::HealthTracker;
use p2p_dht::node::DhtNode;
use p2p_dht::node_id::NodeId;
use p2p_dht::peer::{NetAddr, PeerInfo};
use p2p_dht::routing::RoutingTable;
use p2p_dht::rpc::DhtRpc;

#[test]
fn failures_accumulate_and_reset() {
    let a = NodeId::new(b"a");
    let b = NodeId::new(b"b");
    let mut h = HealthTracker::new();
    assert!(!h.record_failure(&a, 3));
    assert!(!h.record_failure(&a, 3));
    assert_eq!(h.failures_of(&a), 2);
    assert!(!h.record_failure(&b, 3));
    h.record_success(&a);
    assert_eq!(h.failures_of(&a), 0);
    assert_eq!(h.failures_of(&b), 1);
    assert!(!h.record_failure(&a, 3));
    assert!(!h.record_failure(&a, 3));
    assert!(h.record_failure(&a, 3));
    assert_eq!(h.failures_of(&a), 0);
}

#[test]
fn removed_peer_leaves_the_table() {
    let own = NodeId::new(b"own");
    let mut table = RoutingTable::new(own, 20);
    let p = PeerInfo { id: NodeId::new(b"p"), addr: NetAddr::localhost(1), last_seen: 0 };
    let q = PeerInfo { id: NodeId::new(b"q"), addr: NetAddr::localhost(2), last_seen: 0 };
    table.add_peer(p.clone());
    table.add_peer(q.clone());
    table.remove_peer(&p.id);
    assert_eq!(table.list_peers(), vec![q]);
    table.remove_peer(&p.id);
    assert_eq!(table.peer_count(), 1);
}

#[test]
fn peer_failing_twice_is_dropped() {
    let mut a = DhtNode::new(NetAddr::localhost(8091), None);
    let b = PeerInfo { id: NodeId::new(b"b"), addr: NetAddr::localhost(8092), last_seen: 0 };
    a.add_peer(b.clone());
    a.record_health_check(&b, false, 10);
    assert_eq!(a.get_stats().known_peers, 1);
    a.record_health_check(&b, true, 11);
    assert_eq!(a.list_peers()[0].last_seen, 11);
    a.record_health_check(&b, false, 12);
    a.record_health_check(&b, false, 13);
    assert_eq!(a.get_stats().known_peers, 0);
    assert!(a.list_peers().is_empty());
}

#[test]
fn owned_keys_skip_replicas_and_expired() {
    let mut a = DhtNode::new(NetAddr::localhost(8091), None);
    a.store(b"mine", b"v".to_vec(), 100).unwrap();
    a.handle_rpc(DhtRpc::Store(b"theirs".to_vec(), b"w".to_vec()), 100);
    assert_eq!(a.owned_values(100), vec![(b"mine".to_vec(), b"v".to_vec())]);
    assert!(a.owned_values(100 + 3600).is_empty());
}
