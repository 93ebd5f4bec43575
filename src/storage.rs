//! Stored values, their encoding, and the node's local key/value store.
use vstd::prelude::*;
use crate::bytes::{
    enc_bytes, le_u64, lemma_parse_bytes, lemma_parse_u64, parse_bytes, parse_u64, push_bytes,
    push_u64, read_bytes, read_u64, bytes_eq, copy_bytes,
};
use crate::peer::NetAddr;
use crate::wire::{
    enc_addr, enc_addrs, enc_bool, enc_opt_u64, lemma_parse_addr, lemma_parse_addrs,
    lemma_parse_bool, lemma_parse_opt_u64, lemma_u64_rest, parse_addr, parse_addrs, parse_bool,
    parse_opt_u64, push_addr, push_addrs, push_bool, push_opt_u64, read_addr, read_addrs,
    read_bool, read_opt_u64,
};

verus! {

/// A value as a node keeps it: the data, when it was written (its version,
/// unix seconds), the node that wrote it, whether it is held for another node,
/// when it expires, and the nodes that own it (empty for a replica).
#[derive(Clone, Debug, PartialEq, Eq)]
pub struct StoredValue {
    pub data: Vec<u8>,
    pub version: u64,
    pub last_node: NetAddr,
    pub is_replica: bool,
    pub expiration: Option<u64>,
    pub original_nodes: Vec<NetAddr>,
}

pub struct StoredValueView {
    pub data: Seq<u8>,
    pub version: u64,
    pub last_node: NetAddr,
    pub is_replica: bool,
    pub expiration: Option<u64>,
    pub original_nodes: Seq<NetAddr>,
}

impl View for StoredValue {
    type V = StoredValueView;

    open spec fn view(&self) -> StoredValueView {
        StoredValueView {
            data: self.data@,
            version: self.version,
            last_node: self.last_node,
            is_replica: self.is_replica,
            expiration: self.expiration,
            original_nodes: self.original_nodes@,
        }
    }
}

/// A value with this expiration is valid at `now` when it has none or it lies
/// after `now`.
pub open spec fn valid_at(expiration: Option<u64>, now: u64) -> bool {
    match expiration {
        Some(e) => e > now,
        None => true,
    }
}

/// A value is valid exactly before its expiration: one that expires at
/// `now` is already expired.
pub proof fn lemma_valid_before_expiration(e: u64, now: u64)
    ensures
        valid_at(Some(e), now) <==> now < e,
        !valid_at(Some(now), now),
        valid_at(None, now),
{
}

/// The encoding of a stored value: its fields in order.
pub open spec fn encode_value(v: StoredValueView) -> Seq<u8> {
    enc_bytes(v.data) + le_u64(v.version) + enc_addr(v.last_node) + enc_bool(v.is_replica)
        + enc_opt_u64(v.expiration) + enc_addrs(v.original_nodes)
}

/// Reads a stored value off the front of `s`, returning the rest.
pub open spec fn parse_value(s: Seq<u8>) -> Option<(StoredValueView, Seq<u8>)> {
    match parse_bytes(s) {
        None => None,
        Some((data, s1)) => match parse_u64(s1) {
            None => None,
            Some((version, s2)) => match parse_addr(s2) {
                None => None,
                Some((last_node, s3)) => match parse_bool(s3) {
                    None => None,
                    Some((is_replica, s4)) => match parse_opt_u64(s4) {
                        None => None,
                        Some((expiration, s5)) => match parse_addrs(s5) {
                            None => None,
                            Some((original_nodes, rest)) => Some(
                                (
                                    StoredValueView {
                                        data,
                                        version,
                                        last_node,
                                        is_replica,
                                        expiration,
                                        original_nodes,
                                    },
                                    rest,
                                ),
                            ),
                        },
                    },
                },
            },
        },
    }
}

/// The value that a byte string decodes to; bytes after it are ignored.
pub open spec fn decode_value(s: Seq<u8>) -> Option<StoredValueView> {
    match parse_value(s) {
        Some((v, _)) => Some(v),
        None => None,
    }
}

/// A value can be encoded when its lengths fit the `u64` counts.
pub open spec fn encodable(v: StoredValueView) -> bool {
    v.data.len() <= u64::MAX && v.original_nodes.len() <= u64::MAX
}

/// Decoding the encoding of a value, followed by anything, gives the value
/// back and leaves what followed.
#[verifier::rlimit(40)]
pub proof fn lemma_value_round_trip(v: StoredValueView, rest: Seq<u8>)
    requires
        encodable(v),
    ensures
        parse_value(encode_value(v) + rest) == Some((v, rest)),
{
    let r5 = enc_addrs(v.original_nodes) + rest;
    let r4 = enc_opt_u64(v.expiration) + r5;
    let r3 = enc_bool(v.is_replica) + r4;
    let r2 = enc_addr(v.last_node) + r3;
    let r1 = le_u64(v.version) + r2;
    assert(encode_value(v) + rest =~= enc_bytes(v.data) + r1);
    lemma_parse_bytes(v.data, r1);
    lemma_parse_u64(v.version, r2);
    lemma_parse_addr(v.last_node, r3);
    lemma_parse_bool(v.is_replica, r4);
    lemma_parse_opt_u64(v.expiration, r5);
    lemma_parse_addrs(v.original_nodes, rest);
}

/// A value decodes from its own encoding.
pub proof fn lemma_decode_encode(v: StoredValueView)
    requires
        encodable(v),
    ensures
        decode_value(encode_value(v)) == Some(v),
{
    lemma_value_round_trip(v, Seq::<u8>::empty());
    assert(encode_value(v) + Seq::<u8>::empty() =~= encode_value(v));
}

impl StoredValue {
    /// Valid at `current_time`: no expiration, or one after it.
    pub fn is_valid(&self, current_time: u64) -> (r: bool)
        ensures
            r == valid_at(self.expiration, current_time),
    {
        match self.expiration {
            Some(e) => e > current_time,
            None => true,
        }
    }
}

/// The bytes of a stored value.
pub fn serialize_value(value: &StoredValue) -> (r: Vec<u8>)
    requires
        value.original_nodes@.len() <= u64::MAX,
    ensures
        r@ == encode_value(value@),
{
    let mut out: Vec<u8> = Vec::new();
    push_bytes(&mut out, value.data.as_slice());
    push_u64(&mut out, value.version);
    push_addr(&mut out, value.last_node);
    push_bool(&mut out, value.is_replica);
    push_opt_u64(&mut out, value.expiration);
    push_addrs(&mut out, &value.original_nodes);
    assert(out@ =~= encode_value(value@));
    out
}

/// The stored value that `data` begins with, if it begins with one.
pub fn deserialize_value(data: &[u8]) -> (r: Option<StoredValue>)
    ensures
        match decode_value(data@) {
            Some(v) => r matches Some(x) && x@ == v,
            None => r is None,
        },
{
    let (d, q1) = match read_bytes(data, 0) {
        None => {
            return None;
        },
        Some(x) => x,
    };
    assert(data@.skip(0) =~= data@);
    let version = match read_u64(data, q1) {
        None => {
            return None;
        },
        Some(x) => x,
    };
    let len = data.len();
    proof {
        lemma_u64_rest(data@, q1 as int);
    }
    let q2 = q1 + 8;
    let (last_node, q3) = match read_addr(data, q2) {
        None => {
            return None;
        },
        Some(x) => x,
    };
    let (is_replica, q4) = match read_bool(data, q3) {
        None => {
            return None;
        },
        Some(x) => x,
    };
    let (expiration, q5) = match read_opt_u64(data, q4) {
        None => {
            return None;
        },
        Some(x) => x,
    };
    let (original_nodes, _q6) = match read_addrs(data, q5) {
        None => {
            return None;
        },
        Some(x) => x,
    };
    Some(StoredValue { data: d, version, last_node, is_replica, expiration, original_nodes })
}

/// A value written now by the node at `addr`. An owner's value lists `addr`
/// as its one owner; a replica lists none. With a time to live it expires
/// that many seconds after `now`, saturating at the largest time.
pub fn create_stored_value(data: Vec<u8>, addr: NetAddr, is_replica: bool, ttl: Option<u64>, now: u64)
    -> (r: StoredValue)
    ensures
        r@.data == data@,
        r.version == now,
        r.last_node == addr,
        r.is_replica == is_replica,
        r.expiration == match ttl {
            Some(t) => Some(if now + t <= u64::MAX {
                (now + t) as u64
            } else {
                u64::MAX
            }),
            None => None,
        },
        r@.original_nodes == if is_replica {
            Seq::<NetAddr>::empty()
        } else {
            seq![addr]
        },
{
    let original_nodes = if is_replica {
        Vec::new()
    } else {
        vec![addr]
    };
    let expiration = match ttl {
        Some(t) => Some(now.saturating_add(t)),
        None => None,
    };
    let r = StoredValue { data, version: now, last_node: addr, is_replica, expiration, original_nodes };
    assert(r@.original_nodes =~= if is_replica {
        Seq::<NetAddr>::empty()
    } else {
        seq![addr]
    });
    r
}

/// Why a write to the store failed.
#[derive(Clone, Copy, Debug, PartialEq, Eq, Structural)]
pub enum StorageError {
    /// The store holds `max_entries` keys and the key is new.
    StorageFull,
}

/// The local store: serialized values by key, at most `max_entries` keys.
pub struct Storage {
    pub entries: Vec<(Vec<u8>, Vec<u8>)>,
    pub max_entries: usize,
}

/// An entry survives a sweep at `now` when it holds a value valid then.
pub open spec fn live_at(e: (Seq<u8>, Seq<u8>), now: u64) -> bool {
    match decode_value(e.1) {
        Some(v) => valid_at(v.expiration, now),
        None => false,
    }
}

pub open spec fn keys_distinct(s: Seq<(Seq<u8>, Seq<u8>)>) -> bool {
    forall|i: int, j: int| 0 <= i < j < s.len() ==> s[i].0 != s[j].0
}

/// The value under `key`, if some entry has it.
pub open spec fn lookup(s: Seq<(Seq<u8>, Seq<u8>)>, key: Seq<u8>) -> Option<Seq<u8>> {
    if exists|i: int| 0 <= i < s.len() && s[i].0 == key {
        let i = choose|i: int| 0 <= i < s.len() && s[i].0 == key;
        Some(s[i].1)
    } else {
        None
    }
}

impl View for Storage {
    type V = Seq<(Seq<u8>, Seq<u8>)>;

    open spec fn view(&self) -> Seq<(Seq<u8>, Seq<u8>)> {
        self.entries@.map_values(|e: (Vec<u8>, Vec<u8>)| (e.0@, e.1@))
    }
}

impl Storage {
    pub open spec fn wf(&self) -> bool {
        &&& keys_distinct(self@)
        &&& self@.len() <= self.max_entries
    }

    pub fn new(max_entries: usize) -> (r: Storage)
        ensures
            r.wf(),
            r@.len() == 0,
            r.max_entries == max_entries,
    {
        let r = Storage { entries: Vec::new(), max_entries };
        assert(r@ =~= Seq::<(Seq<u8>, Seq<u8>)>::empty());
        r
    }

    /// The position of `key`, if some entry has it.
    fn position(&self, key: &[u8]) -> (r: Option<usize>)
        ensures
            match r {
                Some(i) => i < self@.len() && self@[i as int].0 == key@,
                None => forall|i: int| 0 <= i < self@.len() ==> #[trigger] self@[i].0 != key@,
            },
    {
        let mut i: usize = 0;
        while i < self.entries.len()
            invariant
                i <= self@.len(),
                self@.len() == self.entries@.len(),
                forall|j: int| 0 <= j < i ==> #[trigger] self@[j].0 != key@,
            decreases self@.len() - i,
        {
            assert(self@[i as int].0 == self.entries@[i as int].0@);
            if bytes_eq(self.entries[i].0.as_slice(), key) {
                return Some(i);
            }
            i = i + 1;
        }
        None
    }

    proof fn lemma_lookup_at(&self, i: int)
        requires
            self.wf(),
            0 <= i < self@.len(),
        ensures
            lookup(self@, self@[i].0) == Some(self@[i].1),
    {
        let k = self@[i].0;
        let j = choose|j: int| 0 <= j < self@.len() && self@[j].0 == k;
        if j != i {
            if j < i {
                assert(self@[j].0 != self@[i].0);
            } else {
                assert(self@[i].0 != self@[j].0);
            }
        }
    }

    /// Stores `value` under `key`, replacing what was there. A new key is
    /// refused when the store is full.
    pub fn put(&mut self, key: &[u8], value: Vec<u8>) -> (r: Result<(), StorageError>)
        requires
            old(self).wf(),
        ensures
            final(self).wf(),
            final(self).max_entries == old(self).max_entries,
            r is Err <==> (lookup(old(self)@, key@) is None && old(self)@.len()
                >= old(self).max_entries),
            r is Err ==> final(self)@ == old(self)@,
            r is Ok ==> lookup(final(self)@, key@) == Some(value@),
            r is Ok ==> forall|k: Seq<u8>|
                k != key@ ==> #[trigger] lookup(final(self)@, k) == lookup(old(self)@, k),
            r is Ok ==> final(self)@.len() == old(self)@.len() + if lookup(old(self)@, key@) is None {
                1int
            } else {
                0
            },
    {
        let ghost s = self@;
        let ghost v = value@;
        match self.position(key) {
            Some(i) => {
                proof {
                    self.lemma_lookup_at(i as int);
                }
                let k = copy_bytes(key);
                let _old = self.entries.remove(i);
                self.entries.insert(i, (k, value));
                proof {
                    assert(self@ =~= s.update(i as int, (key@, v)));
                    assert(keys_distinct(self@));
                    self.lemma_lookup_at(i as int);
                    assert forall|k: Seq<u8>| k != key@ implies #[trigger] lookup(self@, k) == lookup(
                        s,
                        k,
                    ) by {
                        if exists|j: int| 0 <= j < s.len() && s[j].0 == k {
                            let j = choose|j: int| 0 <= j < s.len() && s[j].0 == k;
                            assert(self@[j] == s[j]);
                            self.lemma_lookup_at(j);
                        } else {
                            assert forall|j: int| 0 <= j < self@.len() implies self@[j].0 != k by {
                                if j != i {
                                    assert(self@[j] == s[j]);
                                }
                            }
                        }
                    }
                }
                Ok(())
            },
            None => {
                if self.entries.len() >= self.max_entries {
                    return Err(StorageError::StorageFull);
                }
                let k = copy_bytes(key);
                self.entries.push((k, value));
                proof {
                    assert(self@ =~= s.push((key@, v)));
                    assert(keys_distinct(self@));
                    self.lemma_lookup_at(s.len() as int);
                    assert forall|k: Seq<u8>| k != key@ implies #[trigger] lookup(self@, k) == lookup(
                        s,
                        k,
                    ) by {
                        if exists|j: int| 0 <= j < s.len() && s[j].0 == k {
                            let j = choose|j: int| 0 <= j < s.len() && s[j].0 == k;
                            assert(self@[j] == s[j]);
                            self.lemma_lookup_at(j);
                            self.lemma_wf_old(s, j);
                        }
                    }
                }
                Ok(())
            },
        }
    }

    proof fn lemma_wf_old(&self, s: Seq<(Seq<u8>, Seq<u8>)>, j: int)
        requires
            keys_distinct(s),
            0 <= j < s.len(),
        ensures
            lookup(s, s[j].0) == Some(s[j].1),
    {
        let k = s[j].0;
        let i = choose|i: int| 0 <= i < s.len() && s[i].0 == k;
        if i != j {
            if i < j {
                assert(s[i].0 != s[j].0);
            } else {
                assert(s[j].0 != s[i].0);
            }
        }
    }

    /// A copy of the bytes stored under `key`.
    pub fn get(&self, key: &[u8]) -> (r: Option<Vec<u8>>)
        requires
            self.wf(),
        ensures
            match lookup(self@, key@) {
                Some(v) => r matches Some(x) && x@ == v,
                None => r is None,
            },
    {
        match self.position(key) {
            Some(i) => {
                proof {
                    self.lemma_lookup_at(i as int);
                }
                assert(self@[i as int].1 == self.entries@[i as int].1@);
                Some(copy_bytes(self.entries[i].1.as_slice()))
            },
            None => None,
        }
    }

    /// Removes the entry of `key`, if any.
    pub fn remove(&mut self, key: &[u8])
        requires
            old(self).wf(),
        ensures
            final(self).wf(),
            final(self).max_entries == old(self).max_entries,
            lookup(final(self)@, key@) is None,
            forall|k: Seq<u8>|
                k != key@ ==> #[trigger] lookup(final(self)@, k) == lookup(old(self)@, k),
    {
        let ghost s = self@;
        match self.position(key) {
            Some(i) => {
                self.entries.remove(i);
                proof {
                    assert(self@ =~= s.remove(i as int));
                    assert forall|k: Seq<u8>| k != key@ implies #[trigger] lookup(self@, k) == lookup(
                        s,
                        k,
                    ) by {
                        if exists|j: int| 0 <= j < s.len() && s[j].0 == k {
                            let j = choose|j: int| 0 <= j < s.len() && s[j].0 == k;
                            self.lemma_wf_old(s, j);
                            let j2 = if j < i {
                                j
                            } else {
                                j - 1
                            };
                            assert(j != i);
                            assert(self@[j2] == s[j]);
                            self.lemma_lookup_at(j2);
                        } else {
                            assert forall|j: int| 0 <= j < self@.len() implies self@[j].0 != k by {
                                if j < i {
                                    assert(self@[j] == s[j]);
                                } else {
                                    assert(self@[j] == s[j + 1]);
                                }
                            }
                        }
                    }
                    assert forall|j: int| 0 <= j < self@.len() implies self@[j].0 != key@ by {
                        if j < i {
                            assert(self@[j] == s[j]);
                            assert(s[j].0 != s[i as int].0);
                        } else {
                            assert(self@[j] == s[j + 1]);
                            assert(s[i as int].0 != s[j + 1].0);
                        }
                    }
                }
            },
            None => {},
        }
    }

    pub fn len(&self) -> (r: usize)
        ensures
            r == self@.len(),
    {
        self.entries.len()
    }

    /// Removes every entry that does not hold a value valid at `now`; the
    /// others stay, in order.
    pub fn remove_expired(&mut self, now: u64)
        requires
            old(self).wf(),
        ensures
            final(self).wf(),
            final(self).max_entries == old(self).max_entries,
            final(self)@ == old(self)@.filter(|e: (Seq<u8>, Seq<u8>)| live_at(e, now)),
            forall|i: int| 0 <= i < final(self)@.len() ==> live_at(#[trigger] final(self)@[i], now),
    {
        let ghost s = self@;
        let ghost pred = |e: (Seq<u8>, Seq<u8>)| live_at(e, now);
        let mut kept: Vec<(Vec<u8>, Vec<u8>)> = Vec::new();
        let mut i: usize = 0;
        while i < self.entries.len()
            invariant
                s == self@,
                self.wf(),
                i <= s.len(),
                pred == (|e: (Seq<u8>, Seq<u8>)| live_at(e, now)),
                kept@.map_values(|e: (Vec<u8>, Vec<u8>)| (e.0@, e.1@)) == s.take(i as int).filter(
                    pred,
                ),
                forall|k: int|
                    #![trigger kept@[k]]
                    0 <= k < kept@.len() ==> exists|j: int|
                        0 <= j < i && (kept@[k].0@, kept@[k].1@) == #[trigger] s[j],
                keys_distinct(kept@.map_values(|e: (Vec<u8>, Vec<u8>)| (e.0@, e.1@))),
            decreases s.len() - i,
        {
            let ghost before = kept@;
            proof {
                reveal(Seq::filter);
                assert(s.take(i + 1).drop_last() =~= s.take(i as int));
            }
            assert(s[i as int] == (self.entries@[i as int].0@, self.entries@[i as int].1@));
            let live = match deserialize_value(self.entries[i].1.as_slice()) {
                Some(v) => v.is_valid(now),
                None => false,
            };
            if live {
                let k = copy_bytes(self.entries[i].0.as_slice());
                let v = copy_bytes(self.entries[i].1.as_slice());
                kept.push((k, v));
                proof {
                    let km = kept@.map_values(|e: (Vec<u8>, Vec<u8>)| (e.0@, e.1@));
                    assert(km =~= before.map_values(|e: (Vec<u8>, Vec<u8>)| (e.0@, e.1@)).push(
                        s[i as int],
                    ));
                    assert forall|k: int|
                        #![trigger kept@[k]]
                        0 <= k < kept@.len() implies exists|j: int|
                        0 <= j < i + 1 && (kept@[k].0@, kept@[k].1@) == #[trigger] s[j] by {
                        if k < before.len() {
                            assert(kept@[k] == before[k]);
                        } else {
                            assert((kept@[k].0@, kept@[k].1@) == s[i as int]);
                        }
                    }
                    assert forall|a: int, b: int| 0 <= a < b < km.len() implies km[a].0 != km[b].0 by {
                        if b == km.len() - 1 {
                            assert(kept@[a] == before[a]);
                            let j = choose|j: int|
                                0 <= j < i && (before[a].0@, before[a].1@) == #[trigger] s[j];
                        } else {
                            assert(kept@[a] == before[a]);
                            assert(kept@[b] == before[b]);
                            assert(before.map_values(|e: (Vec<u8>, Vec<u8>)| (e.0@, e.1@))[a] == (
                            before[a].0@, before[a].1@));
                            assert(before.map_values(|e: (Vec<u8>, Vec<u8>)| (e.0@, e.1@))[b] == (
                            before[b].0@, before[b].1@));
                        }
                    }
                }
            } else {
                proof {
                    assert forall|k: int|
                        #![trigger kept@[k]]
                        0 <= k < kept@.len() implies exists|j: int|
                        0 <= j < i + 1 && (kept@[k].0@, kept@[k].1@) == #[trigger] s[j] by {
                        let j = choose|j: int|
                            0 <= j < i && (kept@[k].0@, kept@[k].1@) == #[trigger] s[j];
                    }
                }
            }
            i = i + 1;
        }
        assert(s.take(s.len() as int) =~= s);
        proof {
            s.filter_lemma(pred);
            let km = kept@.map_values(|e: (Vec<u8>, Vec<u8>)| (e.0@, e.1@));
            assert forall|i: int| 0 <= i < km.len() implies live_at(#[trigger] km[i], now) by {
                assert(pred(km[i]));
            }
        }
        self.entries = kept;
    }
}

} // verus!
