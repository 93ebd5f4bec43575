use p2p_dht::config::{DhtConfig, ReplicationConfig, StorageConfig};
use p2p_dht::helpers::create_test_node;
use p2p_dht::metrics::{record_find_attempt, record_store_attempt, DhtMetrics};
use p2p_dht::node::{check_bootstrap, node_id_for, select_latest, DhtError, DhtNode, FindStep};
use p2p_dht::node_id::{distance_lt, NodeId};
use p2p_dht::peer::{NetAddr, PeerInfo};
use p2p_dht::pool::IdlePool;
use p2p_dht::routing::RoutingTable;
use p2p_dht::rpc::DhtRpc;
use p2p_dht::storage::{create_stored_value, serialize_value, Storage, StorageError};

fn test_config() -> DhtConfig {
    DhtConfig {
        replication: ReplicationConfig { factor: 5, check_interval: 60, parallelism: 3 },
        storage: StorageConfig { max_entries: 2048, default_ttl: 1, expiration_check_interval: 1 },
        ..Default::default()
    }
}


fn peer_of(node: &DhtNode) -> PeerInfo {
    PeerInfo { id: node.id.clone(), addr: node.addr, last_seen: 0 }
}

/// Runs a find on `node`, asking `others` for replies in memory.
fn find(node: &mut DhtNode, others: &mut [&mut DhtNode], key: &[u8], now: u64) -> Option<Vec<u8>> {
    match node.find_value_start(key, now) {
        FindStep::Found(d) => Some(d),
        FindStep::Query(peers) => {
            let mut replies = Vec::new();
            for p in peers {
                for o in others.iter_mut() {
                    if o.addr == p.addr {
                        replies.push(o.handle_rpc(DhtRpc::FindValue(key.to_vec()), now));
                    }
                }
            }
            node.find_value_finish(&replies, now)
        }
    }
}

#[test]
fn test_node_has_short_ttl() {
    let n = create_test_node(8099);
    assert_eq!(n.addr, NetAddr::localhost(8099));
    assert_eq!(n.config.storage.default_ttl, 1);
    assert_eq!(n.config.storage.max_entries, 2048);
    assert_eq!(n.config.kbucket_size, 20);
    let d = DhtConfig::default();
    assert_eq!((d.storage.default_ttl, d.storage.max_entries, d.replication.factor), (3600, 10_000, 5));
    assert_eq!((d.operation_timeout, d.health_check.max_failures), (3, 2));
}

#[test]
fn sha1_ids_are_digests() {
    let id = NodeId::new(b"abc");
    let hex: String = id.bytes.iter().map(|b| format!("{:02x}", b)).collect();
    assert_eq!(hex, "a9993e364706816aba3e25717850c26c9cd0d89d");
    assert_eq!(NodeId::from_bytes(&[1u8; 20]).unwrap().bytes, vec![1u8; 20]);
    assert!(NodeId::from_bytes(&[1u8; 19]).is_none());
}

#[test]
fn distance_is_symmetric_and_zero_on_self() {
    let a = NodeId::new(b"a");
    let b = NodeId::new(b"b");
    let c = NodeId::new(b"c");
    assert_eq!(a.distance(&b), b.distance(&a));
    assert_eq!(a.distance(&a), vec![0u8; 20]);
    let ab = a.distance(&b);
    let bc = b.distance(&c);
    let x: Vec<u8> = ab.iter().zip(bc.iter()).map(|(p, q)| p ^ q).collect();
    assert_eq!(x, a.distance(&c));
    assert_eq!(a.bucket_index(&b), b.bucket_index(&a));
}

#[test]
fn bucket_index_is_first_differing_bit() {
    let zero = NodeId::from_bytes(&[0u8; 20]).unwrap();
    let mut top = [0u8; 20];
    top[0] = 0x80;
    assert_eq!(zero.bucket_index(&NodeId::from_bytes(&top).unwrap()), 0);
    let mut low = [0u8; 20];
    low[19] = 1;
    assert_eq!(zero.bucket_index(&NodeId::from_bytes(&low).unwrap()), 159);
    let mut mid = [0u8; 20];
    mid[2] = 0x10;
    assert_eq!(zero.bucket_index(&NodeId::from_bytes(&mid).unwrap()), 19);
    assert_eq!(zero.bucket_index(&zero), 0);
    assert!(distance_lt(&[0, 1], &[0, 2]));
    assert!(!distance_lt(&[1, 0], &[0, 2]));
    assert!(!distance_lt(&[1, 0], &[1, 0]));
}

#[test]
fn adding_a_peer_twice_keeps_one_entry() {
    let own = NodeId::new(b"own");
    let mut table = RoutingTable::new(own.clone(), 20);
    let p = PeerInfo { id: NodeId::new(b"p"), addr: NetAddr::localhost(1), last_seen: 3 };
    table.add_peer(p.clone());
    table.add_peer(p.clone());
    let all = table.list_peers();
    assert_eq!(all.iter().filter(|q| q.id == p.id).count(), 1);
    assert_eq!(table.peer_count(), 1);
    let j = own.bucket_index(&p.id);
    assert_eq!(table.buckets[j].get_peers(), vec![p]);
    table.add_peer(PeerInfo { id: own.clone(), addr: NetAddr::localhost(2), last_seen: 0 });
    assert_eq!(table.peer_count(), 1);
}

#[test]
fn routing_table_places_peers_by_bucket_and_stays_bounded() {
    let own = NodeId::new(b"own");
    let mut table = RoutingTable::new(own.clone(), 2);
    for i in 0..400u32 {
        let id = NodeId::new(&i.to_be_bytes());
        table.add_peer(PeerInfo { id, addr: NetAddr::localhost(i as u16), last_seen: 0 });
    }
    assert!(table.peer_count() <= 160 * 2);
    for (j, b) in table.buckets.iter().enumerate() {
        assert!(b.len() <= 2);
        for p in b.get_peers() {
            assert_eq!(own.bucket_index(&p.id), j);
        }
        let ps = b.get_peers();
        for x in 0..ps.len() {
            for y in x + 1..ps.len() {
                assert_ne!(ps[x].id, ps[y].id);
            }
        }
    }
}

#[test]
fn closest_peers_are_sorted_and_nearest() {
    let own = NodeId::new(b"own");
    let mut table = RoutingTable::new(own, 20);
    for i in 0..30u32 {
        let id = NodeId::new(&i.to_le_bytes());
        table.add_peer(PeerInfo { id, addr: NetAddr::localhost(i as u16), last_seen: 0 });
    }
    let target = NodeId::new(b"target");
    let all = table.list_peers();
    let mut dists: Vec<Vec<u8>> = all.iter().map(|p| p.id.distance(&target)).collect();
    dists.sort();
    let got = table.closest_peers(&target, 5);
    assert_eq!(got.len(), 5);
    let got_d: Vec<Vec<u8>> = got.iter().map(|p| p.id.distance(&target)).collect();
    assert_eq!(got_d, dists[..5].to_vec());
    assert_eq!(table.closest_peers(&target, 1000).len(), all.len());
    assert!(table.closest_peers(&target, 0).is_empty());
}

#[test]
fn storage_put_get_remove_and_full() {
    let mut s = Storage::new(2);
    assert_eq!(s.put(b"a", b"1".to_vec()), Ok(()));
    assert_eq!(s.put(b"b", b"2".to_vec()), Ok(()));
    assert_eq!(s.put(b"c", b"3".to_vec()), Err(StorageError::StorageFull));
    assert_eq!(s.put(b"a", b"9".to_vec()), Ok(()));
    assert_eq!(s.get(b"a"), Some(b"9".to_vec()));
    assert_eq!(s.get(b"c"), None);
    assert_eq!(s.len(), 2);
    s.remove(b"a");
    assert_eq!(s.get(b"a"), None);
    assert_eq!(s.len(), 1);
    assert_eq!(s.put(b"c", b"3".to_vec()), Ok(()));
}

#[test]
fn sweep_keeps_only_valid_values() {
    let mut s = Storage::new(10);
    let a = NetAddr::localhost(1);
    let live = serialize_value(&create_stored_value(b"x".to_vec(), a, false, Some(10), 100));
    let edge = serialize_value(&create_stored_value(b"y".to_vec(), a, false, Some(0), 100));
    let forever = serialize_value(&create_stored_value(b"z".to_vec(), a, true, None, 100));
    s.put(b"live", live.clone()).unwrap();
    s.put(b"edge", edge).unwrap();
    s.put(b"forever", forever.clone()).unwrap();
    s.put(b"junk", vec![1, 2, 3]).unwrap();
    s.remove_expired(100);
    assert_eq!(s.len(), 2);
    assert_eq!(s.get(b"live"), Some(live));
    assert_eq!(s.get(b"forever"), Some(forever));
    assert_eq!(s.get(b"edge"), None);
}

#[test]
fn metrics_never_count_more_successes_than_attempts() {
    let mut m = DhtMetrics::new();
    record_store_attempt(&mut m, true);
    record_store_attempt(&mut m, false);
    record_find_attempt(&mut m, false);
    assert_eq!((m.store_ops, m.store_success), (2, 1));
    assert_eq!((m.find_value_ops, m.find_value_success), (1, 0));
    assert!(m.store_success <= m.store_ops && m.find_value_success <= m.find_value_ops);
    m.store_ops = u64::MAX;
    m.inc_store_ops();
    assert_eq!(m.store_ops, u64::MAX);
    m.inc_rpc_requests();
    m.inc_rpc_failures();
    m.set_known_peers(4);
    let s = m.snapshot(9);
    assert_eq!((s.rpc_requests, s.rpc_failures, s.known_peers, s.storage_size), (1, 1, 4, 9));
}

#[test]
fn find_on_empty_node_is_none() {
    let mut a = create_test_node(8100);
    assert_eq!(find(&mut a, &mut [], b"missing", 1000), None);
    let st = a.get_stats();
    assert_eq!(st.find_value_ops, 1);
    assert_eq!(st.find_value_success, 0);
    assert_eq!((st.rpc_requests, st.rpc_failures, st.store_ops), (0, 0, 0));
}

#[test]
fn ping_is_answered_with_pong() {
    let mut b = create_test_node(8092);
    assert_eq!(b.handle_rpc(DhtRpc::Ping, 0), DhtRpc::Pong);
    assert_eq!(b.handle_rpc(DhtRpc::Pong, 0), DhtRpc::Pong);
}

#[test]
fn store_replicates_to_closest_peer_and_both_find_it() {
    let mut a = create_test_node(8091);
    let mut b = create_test_node(8092);
    a.add_peer(peer_of(&b));
    assert_eq!(a.get_stats().known_peers, 1);

    let now = 1_000;
    let targets = a.store(b"shared_key", b"shared_value".to_vec(), now).unwrap();
    assert_eq!(targets.len(), 1);
    assert_eq!(targets[0].addr, b.addr);
    for t in &targets {
        let ack = b.handle_rpc(DhtRpc::Store(b"shared_key".to_vec(), b"shared_value".to_vec()), now);
        assert_eq!(ack, DhtRpc::Pong);
        assert_eq!(t.addr, b.addr);
    }
    assert_eq!(find(&mut a, &mut [], b"shared_key", now), Some(b"shared_value".to_vec()));
    assert_eq!(find(&mut b, &mut [], b"shared_key", now), Some(b"shared_value".to_vec()));
    let st = a.get_stats();
    assert_eq!((st.store_ops, st.store_success, st.storage_size), (1, 1, 1));
}

#[test]
fn find_asks_peers_and_takes_newest() {
    let mut a = create_test_node(8091);
    let mut b = create_test_node(8092);
    a.add_peer(peer_of(&b));
    b.handle_rpc(DhtRpc::Store(b"k".to_vec(), b"remote".to_vec()), 500);
    assert_eq!(find(&mut a, &mut [&mut b], b"k", 500), Some(b"remote".to_vec()));
    assert_eq!(a.get_stats().find_value_success, 1);

    let old = serialize_value(&create_stored_value(b"old".to_vec(), b.addr, true, None, 10));
    let new = serialize_value(&create_stored_value(b"new".to_vec(), b.addr, true, None, 20));
    let expired = serialize_value(&create_stored_value(b"gone".to_vec(), b.addr, true, Some(1), 30));
    let replies = vec![
        DhtRpc::FindValueResponse(Some(old)),
        DhtRpc::FindValueResponse(Some(expired)),
        DhtRpc::FindValueResponse(Some(new)),
        DhtRpc::FindValueResponse(None),
        DhtRpc::Pong,
        DhtRpc::FindValueResponse(Some(vec![9, 9])),
    ];
    assert_eq!(select_latest(&replies, 100), Some(b"new".to_vec()));
    assert_eq!(select_latest(&vec![], 100), None);
}

#[test]
fn ttl_expiry_empties_the_store() {
    let mut a = create_test_node(8093);
    a.store(b"k", b"v".to_vec(), 1_000).unwrap();
    assert_eq!(find(&mut a, &mut [], b"k", 1_000), Some(b"v".to_vec()));
    a.remove_expired(1_002);
    assert_eq!(a.get_stats().storage_size, 0);
    assert_eq!(find(&mut a, &mut [], b"k", 1_002), None);
}

#[test]
fn expired_local_value_is_removed_on_find() {
    let mut a = create_test_node(8094);
    a.store(b"k", b"v".to_vec(), 1_000).unwrap();
    assert_eq!(find(&mut a, &mut [], b"k", 1_001), None);
    assert_eq!(a.get_stats().storage_size, 0);
}

#[test]
fn store_on_full_storage_fails() {
    let mut cfg = test_config();
    cfg.storage.max_entries = 1;
    let mut a = DhtNode::new(NetAddr::localhost(8095), Some(cfg));
    assert!(a.store(b"k1", b"v".to_vec(), 5).is_ok());
    assert_eq!(a.store(b"k2", b"v".to_vec(), 5), Err(DhtError::StorageFull));
    assert!(a.store(b"k1", b"w".to_vec(), 5).is_ok());
    let st = a.get_stats();
    assert_eq!((st.store_ops, st.store_success), (3, 2));
}

#[test]
fn find_node_returns_closest_known() {
    let mut b = create_test_node(8092);
    let c = create_test_node(8093);
    b.add_peer(peer_of(&c));
    match b.handle_rpc(DhtRpc::FindNode(NodeId::new(b"x")), 0) {
        DhtRpc::FindNodeResponse(ps) => assert_eq!(ps, vec![peer_of(&c)]),
        other => panic!("unexpected reply {:?}", other),
    }
    match b.handle_rpc(DhtRpc::FindNode(NodeId { bytes: vec![1, 2] }), 0) {
        DhtRpc::FindNodeResponse(ps) => assert!(ps.is_empty()),
        other => panic!("unexpected reply {:?}", other),
    }
}

#[test]
fn bootstrap_learns_peer_and_its_neighbours() {
    assert_eq!(check_bootstrap(&vec![]), Err(DhtError::EmptyBootstrap));
    let mut a = create_test_node(8091);
    let mut b = create_test_node(8092);
    let c = create_test_node(8093);
    b.add_peer(peer_of(&c));
    assert_eq!(check_bootstrap(&vec![b.addr]), Ok(()));
    assert_eq!(b.handle_rpc(DhtRpc::Ping, 0), DhtRpc::Pong);
    let reply = b.handle_rpc(DhtRpc::FindNode(a.id.clone()), 0);
    a.absorb_bootstrap_reply(b.addr, &reply, 0);
    let ids: Vec<NodeId> = a.list_peers().into_iter().map(|p| p.id).collect();
    assert!(ids.contains(&b.id));
    assert!(ids.contains(&c.id));
    assert_eq!(node_id_for(b.addr), b.id);
}

#[test]
fn idle_pool_reuses_one_connection() {
    let x = NetAddr::localhost(7000);
    let mut pool: IdlePool<u32> = IdlePool::new(30_000);
    assert_eq!(pool.take(x, 0), None);
    pool.put_back(x, 1, 10);
    assert_eq!(pool.take(x, 20), Some(1));
    pool.put_back(x, 1, 30);
    assert_eq!(pool.idle_count(x), 1);
}

#[test]
fn idle_pool_is_lifo_and_drops_stale() {
    let x = NetAddr::localhost(7000);
    let y = NetAddr::localhost(7001);
    let mut pool: IdlePool<u32> = IdlePool::new(100);
    pool.put_back(x, 1, 0);
    pool.put_back(y, 2, 0);
    pool.put_back(x, 3, 0);
    assert_eq!(pool.take(x, 50), Some(3));
    assert_eq!(pool.take(x, 150), None);
    assert_eq!(pool.idle_count(x), 0);
    assert_eq!(pool.idle_count(y), 1);
    pool.put_back(x, 4, 200);
    pool.clean(250);
    assert_eq!(pool.idle_count(y), 0);
    assert_eq!(pool.idle_count(x), 1);
}
