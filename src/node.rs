//! A DHT node: its routing table, store and counters, and the decisions of
//! its operations. Sending and receiving is left to the caller, which hands
//! the replies back.
use vstd::prelude::*;
use crate::config::DhtConfig;
use crate::health::{HealthTracker, failures_of, one_more};
use crate::kbucket::{has_id, updated, without_id};
use crate::metrics::{DhtMetrics, DhtStats, bump, record_find_attempt, record_store_attempt};
use crate::node_id::{BUCKET_COUNT, NodeId, bucket_of, sha1_digest};
use crate::peer::{NetAddr, PeerInfo, PeerView};
use crate::routing::{
    RoutingTable, absorbed, add_step, is_closest, keeps_ids, lemma_absorbed_push, lemma_add_keeps,
    total_len,
};
use crate::rpc::{DhtRpc, RpcView};
use crate::storage::{
    Storage, StoredValueView, create_stored_value, decode_value, deserialize_value, encode_value,
    lookup, serialize_value, valid_at,
};
use crate::wire::{enc_addr, push_addr};

verus! {

/// The failures of node operations.
#[derive(Clone, Copy, Debug, PartialEq, Eq, Structural)]
pub enum DhtError {
    /// The store is full and the key is new.
    StorageFull,
    /// Bootstrap was given no peers.
    EmptyBootstrap,
}

/// What a find does after looking in the local store.
#[derive(Debug)]
pub enum FindStep {
    /// The value's data, found locally.
    Found(Vec<u8>),
    /// Not held locally: ask these peers.
    Query(Vec<PeerInfo>),
}

pub struct DhtNode {
    pub id: NodeId,
    pub addr: NetAddr,
    pub config: DhtConfig,
    pub routing_table: RoutingTable,
    pub storage: Storage,
    pub metrics: DhtMetrics,
    pub health: HealthTracker,
}

/// The id of the node listening at `addr`: the digest of its encoding.
pub open spec fn id_of_addr(addr: NetAddr) -> Seq<u8> {
    sha1_digest(enc_addr(addr))
}

/// The id under which a key is placed: its digest.
pub open spec fn key_id(key: Seq<u8>) -> Seq<u8> {
    sha1_digest(key)
}

/// The stored bytes under `key`, when they hold a value valid at `now`.
pub open spec fn valid_bytes(s: Seq<(Seq<u8>, Seq<u8>)>, key: Seq<u8>, now: u64) -> Option<Seq<u8>> {
    match lookup(s, key) {
        Some(b) => match decode_value(b) {
            Some(v) => if valid_at(v.expiration, now) {
                Some(b)
            } else {
                None
            },
            None => None,
        },
        None => None,
    }
}

/// The value a reply carries, when it carries one valid at `now`.
pub open spec fn reply_value(m: RpcView, now: u64) -> Option<StoredValueView> {
    match m {
        RpcView::FindValueResponse(Some(b)) => match decode_value(b) {
            Some(v) => if valid_at(v.expiration, now) {
                Some(v)
            } else {
                None
            },
            None => None,
        },
        _ => None,
    }
}

/// The newest valid value among the replies: the first with the highest
/// version.
pub open spec fn newest(rs: Seq<RpcView>, now: u64) -> Option<StoredValueView>
    decreases rs.len(),
{
    if rs.len() == 0 {
        None
    } else {
        let best = newest(rs.drop_last(), now);
        match (best, reply_value(rs.last(), now)) {
            (None, c) => c,
            (Some(b), None) => Some(b),
            (Some(b), Some(c)) => if c.version > b.version {
                Some(c)
            } else {
                Some(b)
            },
        }
    }
}

/// An entry holds a value this node owns, valid at `now`.
pub open spec fn owned_at(e: (Seq<u8>, Seq<u8>), now: u64) -> bool {
    match decode_value(e.1) {
        Some(v) => !v.is_replica && valid_at(v.expiration, now),
        None => false,
    }
}

/// An owned entry's key and its value's data.
pub open spec fn owned_entry(e: (Seq<u8>, Seq<u8>)) -> (Seq<u8>, Seq<u8>) {
    match decode_value(e.1) {
        Some(v) => (e.0, v.data),
        None => (e.0, Seq::empty()),
    }
}

/// The replicas of a value stored on behalf of `from` at `now`.
pub open spec fn replica_of(data: Seq<u8>, from: NetAddr, now: u64, ttl: u64) -> StoredValueView {
    StoredValueView {
        data,
        version: now,
        last_node: from,
        is_replica: true,
        expiration: Some(if now + ttl <= u64::MAX {
            (now + ttl) as u64
        } else {
            u64::MAX
        }),
        original_nodes: Seq::empty(),
    }
}

/// The value an owner stores: it lists itself as the one owner.
pub open spec fn owned_by(data: Seq<u8>, owner: NetAddr, now: u64, ttl: u64) -> StoredValueView {
    StoredValueView {
        is_replica: false,
        original_nodes: seq![owner],
        ..replica_of(data, owner, now, ttl)
    }
}

/// The encoding of an address, used as the seed of a node's id.
fn addr_seed(addr: NetAddr) -> (r: Vec<u8>)
    ensures
        r@ == enc_addr(addr),
{
    let mut out: Vec<u8> = Vec::new();
    push_addr(&mut out, addr);
    assert(out@ =~= enc_addr(addr));
    out
}

/// The id of the node listening at `addr`.
pub fn node_id_for(addr: NetAddr) -> (r: NodeId)
    ensures
        r@ == id_of_addr(addr),
        r.wf(),
{
    let seed = addr_seed(addr);
    NodeId::new(seed.as_slice())
}

/// The data of the newest value valid at `now` among the replies.
pub fn select_latest(replies: &Vec<DhtRpc>, now: u64) -> (r: Option<Vec<u8>>)
    ensures
        match newest(replies@.map_values(|m: DhtRpc| m@), now) {
            Some(v) => r matches Some(d) && d@ == v.data,
            None => r is None,
        },
{
    let ghost rs = replies@.map_values(|m: DhtRpc| m@);
    let mut best: Option<crate::storage::StoredValue> = None;
    let mut i: usize = 0;
    while i < replies.len()
        invariant
            i <= replies@.len(),
            rs == replies@.map_values(|m: DhtRpc| m@),
            match newest(rs.take(i as int), now) {
                Some(v) => best matches Some(b) && b@ == v,
                None => best is None,
            },
        decreases replies@.len() - i,
    {
        assert(rs.take(i + 1).drop_last() =~= rs.take(i as int));
        assert(rs.take(i + 1).last() == replies@[i as int]@);
        let cand = match &replies[i] {
            DhtRpc::FindValueResponse(Some(b)) => match deserialize_value(b.as_slice()) {
                Some(v) => if v.is_valid(now) {
                    Some(v)
                } else {
                    None
                },
                None => None,
            },
            _ => None,
        };
        best = match best {
            None => cand,
            Some(b) => match cand {
                None => Some(b),
                Some(c) => if c.version > b.version {
                    Some(c)
                } else {
                    Some(b)
                },
            },
        };
        i = i + 1;
    }
    assert(rs.take(i as int) =~= rs);
    match best {
        Some(b) => Some(b.data),
        None => None,
    }
}

/// Refuses a bootstrap from no peers.
pub fn check_bootstrap(peers: &Vec<NetAddr>) -> (r: Result<(), DhtError>)
    ensures
        r is Err <==> peers@.len() == 0,
        r matches Err(e) ==> e == DhtError::EmptyBootstrap,
{
    if peers.len() == 0 {
        Err(DhtError::EmptyBootstrap)
    } else {
        Ok(())
    }
}

impl DhtNode {
    pub open spec fn wf(&self) -> bool {
        &&& self.id.wf()
        &&& self.routing_table.wf()
        &&& self.routing_table.id@ == self.id@
        &&& self.routing_table.k == self.config.kbucket_size
        &&& self.storage.wf()
        &&& self.storage.max_entries == self.config.storage.max_entries
        &&& self.metrics.wf()
        &&& self.metrics.known_peers == total_len(self.routing_table@)
    }

    /// A node listening at `addr`, with no peers and nothing stored.
    pub fn new(addr: NetAddr, config: Option<DhtConfig>) -> (r: DhtNode)
        requires
            config matches Some(c) ==> BUCKET_COUNT * c.kbucket_size <= usize::MAX,
        ensures
            r.wf(),
            r.id@ == id_of_addr(addr),
            r.addr == addr,
            config matches Some(c) ==> r.config == c,
            config is None ==> r.config == crate::config::default_config(),
            r.storage@.len() == 0,
            r.storage.max_entries == r.config.storage.max_entries,
            total_len(r.routing_table@) == 0,
            r.metrics == DhtMetrics::new_spec(),
            forall|id: Seq<u8>| #[trigger] failures_of(r.health@, id) == 0,
    {
        let config = match config {
            Some(c) => c,
            None => DhtConfig::default(),
        };
        let id = node_id_for(addr);
        let routing_table = RoutingTable::new(id.copy(), config.kbucket_size);
        let storage = Storage::new(config.storage.max_entries);
        let metrics = DhtMetrics::new();
        let health = HealthTracker::new();
        let r = DhtNode { id, addr, config, routing_table, storage, metrics, health };
        proof {
            r.routing_table.lemma_empty();
        }
        r
    }

    /// Records that `peer` was seen, and the new number of known peers.
    pub fn add_peer(&mut self, peer: PeerInfo)
        requires
            old(self).wf(),
            peer.wf(),
        ensures
            final(self).wf(),
            final(self).id == old(self).id,
            final(self).addr == old(self).addr,
            final(self).storage == old(self).storage,
            final(self).health == old(self).health,
            final(self).config.kbucket_size == old(self).config.kbucket_size,
            final(self).metrics == (DhtMetrics {
                known_peers: total_len(final(self).routing_table@) as u64,
                ..old(self).metrics
            }),
            peer@.id == old(self).id@ ==> final(self).routing_table@ == old(self).routing_table@,
            peer@.id != old(self).id@ ==> final(self).routing_table@ == old(self).routing_table@.update(
                bucket_of(old(self).id@, peer@.id) as int,
                updated(
                    old(self).routing_table@[bucket_of(old(self).id@, peer@.id) as int],
                    old(self).config.kbucket_size as nat,
                    peer@,
                ),
            ),
    {
        self.routing_table.add_peer(peer);
        let n = self.routing_table.peer_count();
        self.metrics.set_known_peers(n as u64);
    }

    /// All known peers, bucket 0 first.
    pub fn list_peers(&self) -> (r: Vec<PeerInfo>)
        ensures
            r@.map_values(|p: PeerInfo| p@) == crate::routing::all_of(self.routing_table@),
    {
        self.routing_table.list_peers()
    }

    /// The counters with the number of stored keys.
    pub fn get_stats(&self) -> (r: DhtStats)
        ensures
            r.store_ops == self.metrics.store_ops && r.store_success == self.metrics.store_success
                && r.find_value_ops == self.metrics.find_value_ops && r.find_value_success
                == self.metrics.find_value_success && r.rpc_requests == self.metrics.rpc_requests
                && r.rpc_failures == self.metrics.rpc_failures && r.known_peers
                == self.metrics.known_peers && r.storage_size == self.storage@.len(),
    {
        self.metrics.snapshot(self.storage.len() as u64)
    }

    /// The peers a value under `key` goes to: the closest to the key's id.
    fn closest_to_key(&self, key: &[u8]) -> (r: Vec<PeerInfo>)
        requires
            self.wf(),
        ensures
            is_closest(
                self.routing_table@,
                key_id(key@),
                self.config.replication.factor as nat,
                r@.map_values(|p: PeerInfo| p@),
            ),
    {
        let target = NodeId::new(key);
        self.routing_table.closest_peers(&target, self.config.replication.factor)
    }

    /// The peers a value under `key` is replicated to: the closest to the
    /// key's id, without this node itself.
    pub fn replication_targets(&self, key: &[u8]) -> (r: Vec<PeerInfo>)
        requires
            self.wf(),
        ensures
            exists|c: Seq<PeerView>|
                is_closest(self.routing_table@, key_id(key@), self.config.replication.factor as nat, c)
                    && r@.map_values(|p: PeerInfo| p@) == c.filter(|p: PeerView| p.addr != self.addr),
    {
        let closest = self.closest_to_key(key);
        self.without_self(closest)
    }

    /// Answers a request from another node at time `now`: `Ping` with
    /// `Pong`; `FindNode` with the closest known peers; `FindValue` with the
    /// stored bytes if they hold a valid value; `Store` by keeping a replica
    /// and acknowledging with `Pong`. Anything else gets `Pong`.
    pub fn handle_rpc(&mut self, req: DhtRpc, now: u64) -> (r: DhtRpc)
        requires
            old(self).wf(),
        ensures
            final(self).wf(),
            final(self).id == old(self).id,
            final(self).routing_table == old(self).routing_table,
            final(self).metrics == old(self).metrics,
            !(req@ is Store) ==> final(self).storage == old(self).storage,
            match req@ {
                RpcView::FindNode(id) => if id.len() == crate::node_id::ID_LEN {
                    r@ matches RpcView::FindNodeResponse(ps) && is_closest(
                        old(self).routing_table@,
                        id,
                        old(self).config.kbucket_size as nat,
                        ps,
                    )
                } else {
                    r@ == RpcView::FindNodeResponse(Seq::empty())
                },
                RpcView::FindValue(key) => r@ == RpcView::FindValueResponse(
                    valid_bytes(old(self).storage@, key, now),
                ),
                RpcView::Store(key, value) => r@ == RpcView::Pong && (lookup(
                    final(self).storage@,
                    key,
                ) == Some(encode_value(replica_of(value, old(self).addr, now, old(self).config.storage.default_ttl)))
                    || (lookup(old(self).storage@, key) is None && old(self).storage@.len()
                    >= old(self).storage.max_entries && final(self).storage@ == old(self).storage@)),
                _ => r@ == RpcView::Pong,
            },
    {
        match req {
            DhtRpc::Ping => DhtRpc::Pong,
            DhtRpc::FindNode(id) => {
                if id.bytes.len() != crate::node_id::ID_LEN {
                    let r = DhtRpc::FindNodeResponse(Vec::new());
                    assert(r@ matches RpcView::FindNodeResponse(ps) && ps =~= Seq::<PeerView>::empty());
                    return r;
                }
                let ps = self.routing_table.closest_peers(&id, self.config.kbucket_size);
                DhtRpc::FindNodeResponse(ps)
            },
            DhtRpc::FindValue(key) => {
                let found = self.valid_stored(key.as_slice(), now);
                DhtRpc::FindValueResponse(found)
            },
            DhtRpc::Store(key, value) => {
                let sv = create_stored_value(
                    value,
                    self.addr,
                    true,
                    Some(self.config.storage.default_ttl),
                    now,
                );
                assert(sv@ == replica_of(sv@.data, self.addr, now, self.config.storage.default_ttl));
                let bytes = serialize_value(&sv);
                let _ = self.storage.put(key.as_slice(), bytes);
                DhtRpc::Pong
            },
            _ => DhtRpc::Pong,
        }
    }

    /// The stored bytes under `key`, if they hold a value valid at `now`.
    fn valid_stored(&self, key: &[u8], now: u64) -> (r: Option<Vec<u8>>)
        requires
            self.storage.wf(),
        ensures
            match valid_bytes(self.storage@, key@, now) {
                Some(b) => r matches Some(x) && x@ == b,
                None => r is None,
            },
    {
        match self.storage.get(key) {
            None => None,
            Some(b) => match deserialize_value(b.as_slice()) {
                Some(v) => if v.is_valid(now) {
                    Some(b)
                } else {
                    None
                },
                None => None,
            },
        }
    }

    /// Stores `value` under `key` at time `now` as its owner, counting the
    /// operation and its success. On success, returns the peers to send
    /// replicas to: the closest to the key's id, without this node itself.
    pub fn store(&mut self, key: &[u8], value: Vec<u8>, now: u64) -> (r: Result<Vec<PeerInfo>, DhtError>)
        requires
            old(self).wf(),
        ensures
            final(self).wf(),
            final(self).id == old(self).id,
            final(self).routing_table == old(self).routing_table,
            final(self).metrics == (DhtMetrics {
                store_ops: bump(old(self).metrics.store_ops),
                store_success: if r is Ok {
                    bump(old(self).metrics.store_success)
                } else {
                    old(self).metrics.store_success
                },
                ..old(self).metrics
            }),
            r is Err <==> (lookup(old(self).storage@, key@) is None && old(self).storage@.len()
                >= old(self).storage.max_entries),
            r matches Err(e) ==> e == DhtError::StorageFull && final(self).storage@ == old(
                self,
            ).storage@,
            r is Ok ==> lookup(final(self).storage@, key@) == Some(
                encode_value(owned_by(value@, old(self).addr, now, old(self).config.storage.default_ttl)),
            ),
            r is Ok ==> forall|k: Seq<u8>|
                k != key@ ==> #[trigger] lookup(final(self).storage@, k) == lookup(old(self).storage@, k),
            r matches Ok(ps) ==> exists|c: Seq<PeerView>|
                is_closest(old(self).routing_table@, key_id(key@), old(self).config.replication.factor as nat, c)
                    && ps@.map_values(|p: PeerInfo| p@) == c.filter(|p: PeerView| p.addr != old(self).addr),
    {
        let ghost v = value@;
        let sv = create_stored_value(
            value,
            self.addr,
            false,
            Some(self.config.storage.default_ttl),
            now,
        );
        assert(sv@ =~= owned_by(v, self.addr, now, self.config.storage.default_ttl));
        let bytes = serialize_value(&sv);
        match self.storage.put(key, bytes) {
            Err(_) => {
                record_store_attempt(&mut self.metrics, false);
                Err(DhtError::StorageFull)
            },
            Ok(()) => {
                record_store_attempt(&mut self.metrics, true);
                Ok(self.replication_targets(key))
            },
        }
    }

    /// The peers of `ps` other than this node, in order.
    fn without_self(&self, ps: Vec<PeerInfo>) -> (r: Vec<PeerInfo>)
        ensures
            r@.map_values(|p: PeerInfo| p@) == ps@.map_values(|p: PeerInfo| p@).filter(
                |p: PeerView| p.addr != self.addr,
            ),
    {
        let ghost s = ps@.map_values(|p: PeerInfo| p@);
        let ghost pred = |p: PeerView| p.addr != self.addr;
        let mut r: Vec<PeerInfo> = Vec::new();
        let mut i: usize = 0;
        while i < ps.len()
            invariant
                i <= ps@.len(),
                s == ps@.map_values(|p: PeerInfo| p@),
                pred == (|p: PeerView| p.addr != self.addr),
                r@.map_values(|p: PeerInfo| p@) == s.take(i as int).filter(pred),
            decreases ps@.len() - i,
        {
            proof {
                reveal(Seq::filter);
                assert(s.take(i + 1).drop_last() =~= s.take(i as int));
            }
            if ps[i].addr != self.addr {
                let ghost before = r@.map_values(|p: PeerInfo| p@);
                r.push(ps[i].copy());
                assert(r@.map_values(|p: PeerInfo| p@) =~= before.push(s[i as int]));
            }
            i = i + 1;
        }
        assert(s.take(i as int) =~= s);
        r
    }

    /// The local part of a find at time `now`. A valid local value is
    /// returned, and the find counted as found; an expired one is removed.
    /// Otherwise returns the peers to ask, the closest to the key's id, and
    /// the find is counted when it ends, by `find_value_finish`.
    pub fn find_value_start(&mut self, key: &[u8], now: u64) -> (r: FindStep)
        requires
            old(self).wf(),
        ensures
            final(self).wf(),
            final(self).id == old(self).id,
            final(self).routing_table == old(self).routing_table,
            r is Found ==> final(self).metrics == (DhtMetrics {
                find_value_ops: bump(old(self).metrics.find_value_ops),
                find_value_success: bump(old(self).metrics.find_value_success),
                ..old(self).metrics
            }),
            r is Query ==> final(self).metrics == old(self).metrics,
            match lookup(old(self).storage@, key@) {
                Some(b) => match decode_value(b) {
                    Some(v) => if valid_at(v.expiration, now) {
                        r matches FindStep::Found(d) && d@ == v.data && final(self).storage@
                            == old(self).storage@
                    } else {
                        r is Query && lookup(final(self).storage@, key@) is None && forall|
                            k: Seq<u8>,
                        |
                            k != key@ ==> #[trigger] lookup(final(self).storage@, k) == lookup(
                                old(self).storage@,
                                k,
                            )
                    },
                    None => r is Query && final(self).storage@ == old(self).storage@,
                },
                None => r is Query && final(self).storage@ == old(self).storage@,
            },
            r matches FindStep::Query(ps) ==> is_closest(
                old(self).routing_table@,
                key_id(key@),
                old(self).config.replication.factor as nat,
                ps@.map_values(|p: PeerInfo| p@),
            ),
    {
        if let Some(b) = self.storage.get(key) {
            if let Some(v) = deserialize_value(b.as_slice()) {
                if v.is_valid(now) {
                    record_find_attempt(&mut self.metrics, true);
                    return FindStep::Found(v.data);
                }
                self.storage.remove(key);
            }
        }
        FindStep::Query(self.closest_to_key(key))
    }

    /// The end of a find that asked peers: the data of the newest value valid
    /// at `now` among their replies. The find is counted, and counted as found
    /// when there is one.
    pub fn find_value_finish(&mut self, replies: &Vec<DhtRpc>, now: u64) -> (r: Option<Vec<u8>>)
        requires
            old(self).wf(),
        ensures
            final(self).wf(),
            final(self).id == old(self).id,
            final(self).routing_table == old(self).routing_table,
            final(self).storage == old(self).storage,
            final(self).metrics == (DhtMetrics {
                find_value_ops: bump(old(self).metrics.find_value_ops),
                find_value_success: if r is Some {
                    bump(old(self).metrics.find_value_success)
                } else {
                    old(self).metrics.find_value_success
                },
                ..old(self).metrics
            }),
            match newest(replies@.map_values(|m: DhtRpc| m@), now) {
                Some(v) => r matches Some(d) && d@ == v.data,
                None => r is None,
            },
    {
        let r = select_latest(replies, now);
        record_find_attempt(&mut self.metrics, r.is_some());
        r
    }

    /// Adding a peer keeps every known id.
    proof fn lemma_add_peer_keeps(a: &DhtNode, b: &DhtNode, peer: PeerView)
        requires
            a.wf(),
            b.id == a.id,
            b.config.kbucket_size == a.config.kbucket_size,
            peer.id.len() == crate::node_id::ID_LEN,
            peer.id == a.id@ ==> b.routing_table@ == a.routing_table@,
            peer.id != a.id@ ==> b.routing_table@ == a.routing_table@.update(
                bucket_of(a.id@, peer.id) as int,
                updated(a.routing_table@[bucket_of(a.id@, peer.id) as int], a.config.kbucket_size as nat, peer),
            ),
        ensures
            keeps_ids(a.routing_table@, b.routing_table@),
    {
        a.routing_table.lemma_buckets_wf();
        if peer.id != a.id@ {
            a.routing_table.lemma_bucket_index_range(peer.id);
            lemma_add_keeps(
                a.routing_table@,
                a.config.kbucket_size as nat,
                bucket_of(a.id@, peer.id) as int,
                peer,
            );
        }
    }

    /// Takes in what a bootstrap peer at `from` told at time `now`: the peer
    /// itself, then each well-formed peer of its `FindNode` reply, in order.
    /// No known peer is lost.
    pub fn absorb_bootstrap_reply(&mut self, from: NetAddr, reply: &DhtRpc, now: u64)
        requires
            old(self).wf(),
        ensures
            final(self).wf(),
            final(self).id == old(self).id,
            final(self).addr == old(self).addr,
            final(self).storage == old(self).storage,
            final(self).config.kbucket_size == old(self).config.kbucket_size,
            final(self).routing_table@ == absorbed(
                old(self).routing_table@,
                old(self).id@,
                old(self).config.kbucket_size as nat,
                seq![PeerView { id: id_of_addr(from), addr: from, last_seen: now }] + match reply@ {
                    RpcView::FindNodeResponse(ps) => ps.filter(
                        |p: PeerView| p.id.len() == crate::node_id::ID_LEN,
                    ),
                    _ => Seq::empty(),
                },
            ),
            keeps_ids(old(self).routing_table@, final(self).routing_table@),
    {
        let ghost own = self.id@;
        let ghost k = self.config.kbucket_size as nat;
        let ghost valid = |p: PeerView| p.id.len() == crate::node_id::ID_LEN;
        let boot = PeerInfo { id: node_id_for(from), addr: from, last_seen: now };
        let ghost bv = boot@;
        let ghost start = self.routing_table@;
        let ghost before = *self;
        self.add_peer(boot);
        proof {
            DhtNode::lemma_add_peer_keeps(&before, self, bv);
            assert(self.routing_table@ == add_step(start, own, k, bv));
        }
        let ghost mid = self.routing_table@;
        let ghost rest: Seq<PeerView> = Seq::empty();
        if let DhtRpc::FindNodeResponse(ps) = reply {
            let ghost pvs = ps@.map_values(|p: PeerInfo| p@);
            let mut i: usize = 0;
            while i < ps.len()
                invariant
                    self.wf(),
                    self.id == old(self).id,
                    self.addr == old(self).addr,
                    self.storage == old(self).storage,
                    self.config.kbucket_size == old(self).config.kbucket_size,
                    own == self.id@,
                    k == self.config.kbucket_size as nat,
                    valid == (|p: PeerView| p.id.len() == crate::node_id::ID_LEN),
                    i <= ps@.len(),
                    pvs == ps@.map_values(|p: PeerInfo| p@),
                    keeps_ids(mid, self.routing_table@),
                    self.routing_table@ == absorbed(mid, own, k, pvs.take(i as int).filter(valid)),
                decreases ps@.len() - i,
            {
                proof {
                    reveal(Seq::filter);
                    assert(pvs.take(i + 1).drop_last() =~= pvs.take(i as int));
                    assert(pvs.take(i + 1).last() == ps@[i as int]@);
                }
                if ps[i].id.bytes.len() == crate::node_id::ID_LEN {
                    let ghost prev = *self;
                    let p = ps[i].copy();
                    let ghost pv = p@;
                    self.add_peer(p);
                    proof {
                        DhtNode::lemma_add_peer_keeps(&prev, self, pv);
                        assert forall|j: int, x: Seq<u8>| 0 <= j < mid.len() && #[trigger] has_id(
                            mid[j],
                            x,
                        ) implies has_id(self.routing_table@[j], x) by {
                            assert(has_id(prev.routing_table@[j], x));
                        }
                        lemma_absorbed_push(mid, own, k, pvs.take(i as int).filter(valid), pv);
                    }
                }
                i = i + 1;
            }
            proof {
                assert(pvs.take(i as int) =~= pvs);
            }
        }
        proof {
            assert forall|j: int, x: Seq<u8>| 0 <= j < start.len() && #[trigger] has_id(start[j], x)
                implies has_id(self.routing_table@[j], x) by {
                assert(has_id(mid[j], x));
            }
            let tail = match reply@ {
                RpcView::FindNodeResponse(ps) => ps.filter(valid),
                _ => Seq::empty(),
            };
            if !(reply@ is FindNodeResponse) {
                reveal(Seq::filter);
            }
            assert((seq![bv] + tail).drop_first() =~= tail);
            assert(absorbed(mid, own, k, Seq::<PeerView>::empty()) == mid);
        }
    }

    /// Takes in the outcome of a health check of `peer` at time `now`. A
    /// peer that answered is seen again; one that has now failed
    /// `max_failures` checks in a row is dropped from the routing table.
    pub fn record_health_check(&mut self, peer: &PeerInfo, answered: bool, now: u64)
        requires
            old(self).wf(),
            peer.wf(),
        ensures
            final(self).wf(),
            final(self).id == old(self).id,
            final(self).storage == old(self).storage,
            answered ==> failures_of(final(self).health@, peer@.id) == 0,
            answered && peer@.id != old(self).id@ ==> final(self).routing_table@ == old(
                self,
            ).routing_table@.update(
                bucket_of(old(self).id@, peer@.id) as int,
                updated(
                    old(self).routing_table@[bucket_of(old(self).id@, peer@.id) as int],
                    old(self).config.kbucket_size as nat,
                    PeerView { last_seen: now, ..peer@ },
                ),
            ),
            !answered && one_more(failures_of(old(self).health@, peer@.id))
                >= old(self).config.health_check.max_failures && peer@.id != old(self).id@
                ==> final(self).routing_table@ == old(self).routing_table@.update(
                bucket_of(old(self).id@, peer@.id) as int,
                without_id(old(self).routing_table@[bucket_of(old(self).id@, peer@.id) as int], peer@.id),
            ),
            !answered && one_more(failures_of(old(self).health@, peer@.id))
                < old(self).config.health_check.max_failures ==> final(self).routing_table
                == old(self).routing_table && failures_of(final(self).health@, peer@.id)
                == one_more(failures_of(old(self).health@, peer@.id)),
    {
        if answered {
            self.health.record_success(&peer.id);
            let seen = PeerInfo { id: peer.id.copy(), addr: peer.addr, last_seen: now };
            self.add_peer(seen);
        } else if self.health.record_failure(&peer.id, self.config.health_check.max_failures) {
            self.routing_table.remove_peer(&peer.id);
            let n = self.routing_table.peer_count();
            self.metrics.set_known_peers(n as u64);
        }
    }

    /// The keys this node owns, holding values valid at `now`, each with its
    /// value's data: what the replication refresh sends again.
    #[verifier::rlimit(60)]
    #[verifier::spinoff_prover]
    pub fn owned_values(&self, now: u64) -> (r: Vec<(Vec<u8>, Vec<u8>)>)
        requires
            self.wf(),
        ensures
            r@.map_values(|e: (Vec<u8>, Vec<u8>)| (e.0@, e.1@)) == self.storage@.filter(
                |e: (Seq<u8>, Seq<u8>)| owned_at(e, now),
            ).map_values(|e: (Seq<u8>, Seq<u8>)| owned_entry(e)),
    {
        let ghost s = self.storage@;
        let ghost pred = |e: (Seq<u8>, Seq<u8>)| owned_at(e, now);
        let mut r: Vec<(Vec<u8>, Vec<u8>)> = Vec::new();
        let mut i: usize = 0;
        while i < self.storage.entries.len()
            invariant
                s == self.storage@,
                i <= s.len(),
                pred == (|e: (Seq<u8>, Seq<u8>)| owned_at(e, now)),
                r@.map_values(|e: (Vec<u8>, Vec<u8>)| (e.0@, e.1@)) == s.take(i as int).filter(
                    pred,
                ).map_values(|e: (Seq<u8>, Seq<u8>)| owned_entry(e)),
            decreases s.len() - i,
        {
            proof {
                reveal(Seq::filter);
                assert(s.take(i + 1).drop_last() =~= s.take(i as int));
            }
            let e = &self.storage.entries[i];
            assert(s[i as int] == (e.0@, e.1@));
            if let Some(v) = deserialize_value(e.1.as_slice()) {
                if !v.is_replica && v.is_valid(now) {
                    let ghost before = r@.map_values(|e: (Vec<u8>, Vec<u8>)| (e.0@, e.1@));
                    let ghost entry = owned_entry(s[i as int]);
                    r.push((crate::bytes::copy_bytes(e.0.as_slice()), v.data));
                    assert(r@.map_values(|e: (Vec<u8>, Vec<u8>)| (e.0@, e.1@)) =~= before.push(entry));
                    assert(s.take(i + 1).filter(pred) == s.take(i as int).filter(pred).push(
                        s[i as int],
                    ));
                    assert(s.take(i + 1).filter(pred).map_values(
                        |e: (Seq<u8>, Seq<u8>)| owned_entry(e),
                    ) =~= before.push(entry));
                }
            }
            i = i + 1;
        }
        assert(s.take(i as int) =~= s);
        r
    }

    /// Removes every stored value not valid at `now`.
    pub fn remove_expired(&mut self, now: u64)
        requires
            old(self).wf(),
        ensures
            final(self).wf(),
            final(self).id == old(self).id,
            final(self).routing_table == old(self).routing_table,
            final(self).storage@ == old(self).storage@.filter(
                |e: (Seq<u8>, Seq<u8>)| crate::storage::live_at(e, now),
            ),
            forall|i: int|
                0 <= i < final(self).storage@.len() ==> crate::storage::live_at(
                    #[trigger] final(self).storage@[i],
                    now,
                ),
    {
        self.storage.remove_expired(now);
    }
}

} // verus!
