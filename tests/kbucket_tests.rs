use p2p_dht::kbucket::KBucket;
use p2p_dht::node_id::NodeId;
use p2p_dht::peer::{NetAddr, PeerInfo};

fn create_peer(id: &str) -> PeerInfo {
    PeerInfo {
        id: NodeId::new(id.as_bytes()),
        addr: NetAddr::localhost(8090),
        last_seen: 0,
    }
}

#[test]
fn test_add_peer() {
    let mut bucket = KBucket {
        peers: Vec::new(),
        max_size: 2,
    };

    let peer1 = create_peer("peer1");
    let peer2 = create_peer("peer2");

    bucket.update_peer(peer1.clone());
    bucket.update_peer(peer2.clone());

    assert_eq!(bucket.len(), 2);
    assert!(bucket.get_peers().contains(&peer1));
    assert!(bucket.get_peers().contains(&peer2));
}

#[test]
fn test_update_existing_peer() {
    let mut bucket = KBucket {
        peers: Vec::new(),
        max_size: 2,
    };

    let mut peer1 = create_peer("peer1");
    bucket.update_peer(peer1.clone());

    peer1.last_seen = 100;
    bucket.update_peer(peer1.clone());

    assert_eq!(bucket.len(), 1);
    assert_eq!(bucket.get_peers()[0].last_seen, 100);
}

#[test]
fn test_bucket_full() {
    let mut bucket = KBucket {
        peers: Vec::new(),
        max_size: 1,
    };

    let peer1 = create_peer("peer1");
    let peer2 = create_peer("peer2");

    bucket.update_peer(peer1);
    bucket.update_peer(peer2);

    assert_eq!(bucket.len(), 1);
    assert!(bucket.is_full());
}

#[test]
fn full_bucket_ignores_new_id_and_refreshes_known_id() {
    let mut bucket = KBucket::new(2);
    let a = create_peer("a");
    let b = create_peer("b");
    bucket.update_peer(a.clone());
    bucket.update_peer(b.clone());
    let before = bucket.get_peers();

    bucket.update_peer(create_peer("c"));
    assert_eq!(bucket.get_peers(), before);

    let mut a2 = a.clone();
    a2.last_seen = 42;
    bucket.update_peer(a2.clone());
    assert_eq!(bucket.len(), 2);
    assert_eq!(bucket.get_peers(), vec![b.clone(), a2.clone()]);
    assert_eq!(bucket.get_peer(&a.id), Some(&a2));
    assert_eq!(bucket.get_peer(&NodeId::new(b"c")), None);
}

#[test]
fn empty_bucket_reports_empty() {
    let bucket = KBucket::new(3);
    assert!(bucket.is_empty());
    assert!(!bucket.is_full());
    assert_eq!(bucket.len(), 0);
}
