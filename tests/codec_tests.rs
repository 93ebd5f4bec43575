use p2p_dht::bytes::{bytes_eq, copy_bytes};
use p2p_dht::node_id::NodeId;
use p2p_dht::peer::{NetAddr, PeerInfo};
use p2p_dht::rpc::{decode_message, encode_frame, encode_message, frame_len, parse_frame_bytes, DhtRpc};
use p2p_dht::storage::{create_stored_value, deserialize_value, serialize_value, StoredValue};

fn sample_value() -> StoredValue {
    StoredValue {
        data: b"shared_value".to_vec(),
        version: 1_700_000_000,
        last_node: NetAddr::localhost(8091),
        is_replica: false,
        expiration: Some(1_700_003_600),
        original_nodes: vec![NetAddr::localhost(8091), NetAddr::new(10, 0, 0, 7, 9000)],
    }
}

#[test]
fn stored_value_round_trip() {
    let v = sample_value();
    let bytes = serialize_value(&v);
    assert_eq!(deserialize_value(&bytes), Some(v.clone()));

    let replica = StoredValue { is_replica: true, expiration: None, original_nodes: vec![], ..v };
    let bytes = serialize_value(&replica);
    assert_eq!(deserialize_value(&bytes), Some(replica));
}

#[test]
fn stored_value_matches_bincode_layout() {
    let v = sample_value();
    let addr = |a: u8, b: u8, c: u8, d: u8, port: u16| (0u32, (a, b, c, d), port);
    let expected = bincode::serialize(&(
        b"shared_value".to_vec(),
        1_700_000_000u64,
        addr(127, 0, 0, 1, 8091),
        false,
        Some(1_700_003_600u64),
        vec![addr(127, 0, 0, 1, 8091), addr(10, 0, 0, 7, 9000)],
    ))
    .unwrap();
    assert_eq!(serialize_value(&v), expected);
}

#[test]
fn truncated_value_does_not_decode() {
    let bytes = serialize_value(&sample_value());
    assert_eq!(deserialize_value(&bytes[..bytes.len() - 1]), None);
    assert_eq!(deserialize_value(&[]), None);
    let mut bad_flag = bytes.clone();
    // the flag byte follows 8 + 12 (data) + 8 (version) + 10 (address) bytes
    bad_flag[38] = 2;
    assert_eq!(deserialize_value(&bad_flag), None);
}

#[test]
fn created_values_carry_owner_and_expiry() {
    let owner = NetAddr::localhost(8091);
    let v = create_stored_value(b"v".to_vec(), owner, false, Some(60), 1000);
    assert_eq!(v.version, 1000);
    assert_eq!(v.expiration, Some(1060));
    assert_eq!(v.original_nodes, vec![owner]);
    let r = create_stored_value(b"v".to_vec(), owner, true, Some(u64::MAX), 1000);
    assert_eq!(r.expiration, Some(u64::MAX));
    assert!(r.original_nodes.is_empty());
    let n = create_stored_value(b"v".to_vec(), owner, true, None, 5);
    assert_eq!(n.expiration, None);
}

#[test]
fn expiration_equal_to_now_is_expired() {
    let mut v = sample_value();
    v.expiration = Some(100);
    assert!(v.is_valid(99));
    assert!(!v.is_valid(100));
    assert!(!v.is_valid(101));
    v.expiration = None;
    assert!(v.is_valid(u64::MAX));
}

fn all_messages() -> Vec<DhtRpc> {
    let peer = PeerInfo { id: NodeId::new(b"p"), addr: NetAddr::localhost(8092), last_seen: 7 };
    vec![
        DhtRpc::Ping,
        DhtRpc::Pong,
        DhtRpc::FindNode(NodeId::new(b"target")),
        DhtRpc::FindNodeResponse(vec![peer.clone(), peer]),
        DhtRpc::FindNodeResponse(vec![]),
        DhtRpc::FindValue(b"key".to_vec()),
        DhtRpc::FindValueResponse(None),
        DhtRpc::FindValueResponse(Some(b"bytes".to_vec())),
        DhtRpc::Store(b"k".to_vec(), b"v".to_vec()),
    ]
}

#[test]
fn frames_round_trip() {
    for m in all_messages() {
        let f = encode_frame(&m).unwrap();
        let n = frame_len(&f[..4]).unwrap() as usize;
        assert_eq!(n, f.len() - 4);
        assert_eq!(parse_frame_bytes(&f), Some(m.clone()));
        assert_eq!(decode_message(&encode_message(&m)), Some(m));
    }
}

#[test]
fn messages_match_bincode_layout() {
    assert_eq!(encode_message(&DhtRpc::Ping), bincode::serialize(&0u32).unwrap());
    assert_eq!(encode_message(&DhtRpc::Pong), bincode::serialize(&1u32).unwrap());
    assert_eq!(
        encode_message(&DhtRpc::Store(b"k".to_vec(), b"vv".to_vec())),
        bincode::serialize(&(6u32, b"k".to_vec(), b"vv".to_vec())).unwrap()
    );
    assert_eq!(
        encode_message(&DhtRpc::FindValueResponse(Some(b"x".to_vec()))),
        bincode::serialize(&(5u32, Some(b"x".to_vec()))).unwrap()
    );
    let id = NodeId::new(b"n");
    let mut raw = [0u8; 20];
    raw.copy_from_slice(&id.bytes);
    assert_eq!(
        encode_message(&DhtRpc::FindNode(id)),
        bincode::serialize(&(2u32, raw)).unwrap()
    );
}

#[test]
fn frame_header_is_big_endian() {
    let f = encode_frame(&DhtRpc::Ping).unwrap();
    assert_eq!(f, vec![0, 0, 0, 4, 0, 0, 0, 0]);
    assert_eq!(frame_len(&[0, 0, 1, 2]), Some(258));
    assert_eq!(frame_len(&[1, 2]), None);
}

#[test]
fn malformed_messages_do_not_decode() {
    assert_eq!(decode_message(&[7, 0, 0, 0]), None);
    assert_eq!(decode_message(&[2, 0, 0, 0, 1, 2]), None);
    assert_eq!(parse_frame_bytes(&[0, 0, 0, 9, 0, 0, 0, 0]), None);
}

#[test]
fn byte_helpers_copy_and_compare() {
    let c = copy_bytes(b"abc");
    assert_eq!(c, b"abc".to_vec());
    assert!(bytes_eq(b"abc", &c));
    assert!(!bytes_eq(b"abc", b"abd"));
    assert!(!bytes_eq(b"abc", b"ab"));
}

#[test]
fn ipv6_addresses_round_trip_and_match_bincode() {
    let v6 = NetAddr::new_v6([0x2001, 0x0db8, 0, 0, 0, 0, 0xff00, 0x0042], 8329);
    let v = StoredValue {
        data: b"d".to_vec(),
        version: 3,
        last_node: v6,
        is_replica: true,
        expiration: None,
        original_nodes: vec![v6, NetAddr::localhost(1)],
    };
    let bytes = serialize_value(&v);
    assert_eq!(deserialize_value(&bytes), Some(v.clone()));

    let octets: [u8; 16] = [0x20, 0x01, 0x0d, 0xb8, 0, 0, 0, 0, 0, 0, 0, 0, 0xff, 0x00, 0x00, 0x42];
    let expected = bincode::serialize(&(
        b"d".to_vec(),
        3u64,
        (1u32, octets, 8329u16),
        true,
        None::<u64>,
        2u64,
        (1u32, octets, 8329u16),
        (0u32, (127u8, 0u8, 0u8, 1u8), 1u16),
    ))
    .unwrap();
    assert_eq!(bytes, expected);

    let peer = PeerInfo { id: NodeId::new(b"six"), addr: v6, last_seen: 1 };
    let m = DhtRpc::FindNodeResponse(vec![peer]);
    assert_eq!(parse_frame_bytes(&encode_frame(&m).unwrap()), Some(m));
}
