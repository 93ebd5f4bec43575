//! A Kademlia k-bucket: up to `max_size` peers, no two with one identifier.
use vstd::prelude::*;
use crate::node_id::NodeId;
use crate::peer::{PeerInfo, PeerView, copy_peers};

verus! {

/// The peers of one bucket, oldest insertion first, with its capacity.
#[derive(Debug, Default)]
pub struct KBucket {
    pub peers: Vec<PeerInfo>,
    pub max_size: usize,
}

/// No two entries share an identifier.
pub open spec fn distinct_ids(s: Seq<PeerView>) -> bool {
    forall|i: int, j: int| 0 <= i < j < s.len() ==> s[i].id != s[j].id
}

/// Some entry has this identifier.
pub open spec fn has_id(s: Seq<PeerView>, id: Seq<u8>) -> bool {
    exists|i: int| 0 <= i < s.len() && s[i].id == id
}

/// The entries whose identifier differs from `id`, in order.
pub open spec fn without_id(s: Seq<PeerView>, id: Seq<u8>) -> Seq<PeerView> {
    s.filter(|p: PeerView| p.id != id)
}

/// The bucket after `update`: any entry with the peer's identifier is taken
/// out, then the peer is appended if there is room.
pub open spec fn updated(s: Seq<PeerView>, max: nat, p: PeerView) -> Seq<PeerView> {
    let rest = without_id(s, p.id);
    if rest.len() < max {
        rest.push(p)
    } else {
        rest
    }
}

/// What a filter keeps was in the sequence.
pub proof fn lemma_filter_subset(s: Seq<PeerView>, pred: spec_fn(PeerView) -> bool, x: PeerView)
    requires
        s.filter(pred).contains(x),
    ensures
        s.contains(x),
    decreases s.len(),
{
    reveal(Seq::filter);
    if s.len() > 0 {
        let d = s.drop_last();
        let f = d.filter(pred);
        if f.contains(x) {
            lemma_filter_subset(d, pred, x);
            let u = choose|u: int| 0 <= u < d.len() && d[u] == x;
            assert(s[u] == x);
        } else {
            assert(s[s.len() - 1] == x);
        }
    }
}

/// A filter that every entry passes keeps everything.
pub proof fn lemma_filter_all(s: Seq<PeerView>, pred: spec_fn(PeerView) -> bool)
    requires
        forall|i: int| 0 <= i < s.len() ==> pred(#[trigger] s[i]),
    ensures
        s.filter(pred) == s,
    decreases s.len(),
{
    reveal(Seq::filter);
    if s.len() > 0 {
        let d = s.drop_last();
        assert forall|i: int| 0 <= i < d.len() implies pred(#[trigger] d[i]) by {
            assert(d[i] == s[i]);
        }
        lemma_filter_all(d, pred);
        assert(d.push(s.last()) =~= s);
    }
}

/// Filtering keeps ids distinct.
pub proof fn lemma_filter_distinct(s: Seq<PeerView>, pred: spec_fn(PeerView) -> bool)
    requires
        distinct_ids(s),
    ensures
        distinct_ids(s.filter(pred)),
    decreases s.len(),
{
    reveal(Seq::filter);
    if s.len() > 0 {
        let d = s.drop_last();
        let f = d.filter(pred);
        lemma_filter_distinct(d, pred);
        if pred(s.last()) {
            let g = f.push(s.last());
            assert forall|a: int, b: int| 0 <= a < b < g.len() implies g[a].id != g[b].id by {
                if b == g.len() - 1 {
                    assert(f.contains(g[a]));
                    lemma_filter_subset(d, pred, g[a]);
                    let u = choose|u: int| 0 <= u < d.len() && d[u] == g[a];
                    assert(s[u] == d[u]);
                } else {
                    assert(g[a] == f[a] && g[b] == f[b]);
                }
            }
        }
    }
}

/// Without the entry of an id that some entry has, a bucket of distinct ids
/// is one shorter.
proof fn lemma_without_present(s: Seq<PeerView>, id: Seq<u8>)
    requires
        distinct_ids(s),
        has_id(s, id),
    ensures
        without_id(s, id).len() == s.len() - 1,
    decreases s.len(),
{
    reveal(Seq::filter);
    let pred = |p: PeerView| p.id != id;
    let d = s.drop_last();
    if s.last().id == id {
        assert forall|i: int| 0 <= i < d.len() implies pred(#[trigger] d[i]) by {
            assert(s[i] == d[i]);
        }
        lemma_filter_all(d, pred);
    } else {
        let u = choose|u: int| 0 <= u < s.len() && s[u].id == id;
        assert(d[u] == s[u]);
        lemma_without_present(d, id);
    }
}

/// Every entry passes, so nothing is taken out.
proof fn lemma_without_absent(s: Seq<PeerView>, id: Seq<u8>)
    requires
        !has_id(s, id),
    ensures
        without_id(s, id) == s,
{
    let pred = |p: PeerView| p.id != id;
    assert forall|i: int| 0 <= i < s.len() implies pred(#[trigger] s[i]) by {}
    lemma_filter_all(s, pred);
}

/// A full bucket is left as it is by a peer with a new id; a peer it already
/// holds is moved to the back with its new record, the length unchanged.
pub proof fn lemma_update_at_capacity(s: Seq<PeerView>, max: nat, p: PeerView)
    requires
        distinct_ids(s),
        s.len() == max,
    ensures
        !has_id(s, p.id) ==> updated(s, max, p) == s,
        has_id(s, p.id) ==> updated(s, max, p) == without_id(s, p.id).push(p) && updated(
            s,
            max,
            p,
        ).len() == s.len(),
{
    if has_id(s, p.id) {
        lemma_without_present(s, p.id);
    } else {
        lemma_without_absent(s, p.id);
    }
}

/// Updating with one peer twice is the same as updating once; the result has
/// distinct ids, and holds the peer unless it was dropped from a full bucket.
pub proof fn lemma_update_idempotent(s: Seq<PeerView>, max: nat, p: PeerView)
    requires
        distinct_ids(s),
        s.len() <= max,
    ensures
        updated(updated(s, max, p), max, p) == updated(s, max, p),
        distinct_ids(updated(s, max, p)),
        (has_id(s, p.id) || s.len() < max) ==> has_id(updated(s, max, p), p.id),
{
    let pred = |q: PeerView| q.id != p.id;
    let rest = without_id(s, p.id);
    s.filter_lemma(pred);
    lemma_filter_distinct(s, pred);
    assert forall|i: int| 0 <= i < rest.len() implies pred(#[trigger] rest[i]) by {}
    lemma_filter_all(rest, pred);
    if has_id(s, p.id) {
        lemma_without_present(s, p.id);
    } else {
        lemma_without_absent(s, p.id);
    }
    if rest.len() < max {
        let u = rest.push(p);
        reveal(Seq::filter);
        assert(u.drop_last() =~= rest);
        assert(without_id(u, p.id) == rest);
        assert(u[rest.len() as int].id == p.id);
        assert forall|a: int, b: int| 0 <= a < b < u.len() implies u[a].id != u[b].id by {
            if b == rest.len() {
                assert(pred(rest[a]));
            } else {
                assert(u[a] == rest[a] && u[b] == rest[b]);
            }
        }
    }
}

/// An update never loses an id the bucket holds.
pub proof fn lemma_update_keeps(s: Seq<PeerView>, max: nat, p: PeerView, x: Seq<u8>)
    requires
        distinct_ids(s),
        s.len() <= max,
        has_id(s, x),
    ensures
        has_id(updated(s, max, p), x),
{
    let pred = |q: PeerView| q.id != p.id;
    let rest = without_id(s, p.id);
    lemma_without_present_or_absent(s, p.id);
    if x == p.id {
        assert(updated(s, max, p)[rest.len() as int] == p);
    } else {
        let u = choose|u: int| 0 <= u < s.len() && s[u].id == x;
        s.filter_lemma(pred);
        assert(rest.contains(s[u]));
        let w = choose|w: int| 0 <= w < rest.len() && rest[w] == s[u];
        if rest.len() < max {
            assert(rest.push(p)[w] == rest[w]);
        }
    }
}

proof fn lemma_without_present_or_absent(s: Seq<PeerView>, id: Seq<u8>)
    requires
        distinct_ids(s),
    ensures
        has_id(s, id) ==> without_id(s, id).len() == s.len() - 1,
        !has_id(s, id) ==> without_id(s, id) == s,
{
    if has_id(s, id) {
        lemma_without_present(s, id);
    } else {
        lemma_without_absent(s, id);
    }
}

impl View for KBucket {
    type V = Seq<PeerView>;

    open spec fn view(&self) -> Seq<PeerView> {
        self.peers@.map_values(|p: PeerInfo| p@)
    }
}

impl KBucket {
    pub open spec fn wf(&self) -> bool {
        &&& distinct_ids(self@)
        &&& self@.len() <= self.max_size
    }

    /// An empty bucket holding up to `max_size` peers.
    pub fn new(max_size: usize) -> (r: KBucket)
        ensures
            r@ == Seq::<PeerView>::empty(),
            r.max_size == max_size,
            r.wf(),
    {
        let r = KBucket { peers: Vec::new(), max_size };
        assert(r@ =~= Seq::<PeerView>::empty());
        r
    }

    /// Takes out the entry with identifier `id`, if any; the others keep
    /// their order.
    pub fn remove_peer(&mut self, id: &NodeId)
        requires
            old(self).wf(),
        ensures
            final(self).wf(),
            final(self).max_size == old(self).max_size,
            final(self)@ == without_id(old(self)@, id@),
    {
        let ghost s = self@;
        let ghost pred = |p: PeerView| p.id != id@;
        let mut kept: Vec<PeerInfo> = Vec::new();
        let mut i: usize = 0;
        while i < self.peers.len()
            invariant
                s == self@,
                self.wf(),
                i <= s.len(),
                pred == (|p: PeerView| p.id != id@),
                kept@.map_values(|p: PeerInfo| p@) == s.take(i as int).filter(pred),
                kept@.len() <= i,
            decreases s.len() - i,
        {
            let ghost before = kept@;
            proof {
                reveal(Seq::filter);
                assert(s.take(i + 1).drop_last() =~= s.take(i as int));
            }
            if !self.peers[i].id.same_as(id) {
                kept.push(self.peers[i].copy());
                assert(kept@.map_values(|p: PeerInfo| p@) =~= before.map_values(|p: PeerInfo| p@).push(
                    s[i as int],
                ));
            }
            i = i + 1;
        }
        assert(s.take(s.len() as int) =~= s);
        proof {
            lemma_filter_distinct(s, pred);
            s.lemma_filter_len(pred);
        }
        self.peers = kept;
    }

    /// Records that `peer` was seen: an entry with its identifier is replaced
    /// and moved to the back; a new peer is appended while there is room and
    /// dropped when the bucket is full.
    pub fn update_peer(&mut self, peer: PeerInfo)
        requires
            old(self).wf(),
        ensures
            final(self).wf(),
            final(self).max_size == old(self).max_size,
            final(self)@ == updated(old(self)@, old(self).max_size as nat, peer@),
    {
        self.remove_peer(&peer.id);
        let ghost rest = self@;
        proof {
            old(self)@.filter_lemma(|p: PeerView| p.id != peer@.id);
        }
        if self.peers.len() < self.max_size {
            let ghost pv = peer@;
            self.peers.push(peer);
            proof {
                assert(self@ =~= rest.push(pv));
                assert forall|a: int, b: int|
                    0 <= a < b < rest.len() + 1 implies rest.push(pv)[a].id != rest.push(
                        pv,
                    )[b].id by {
                    if b == rest.len() {
                        assert((|p: PeerView| p.id != pv.id)(rest[a]));
                    } else {
                        assert(rest.push(pv)[a] == rest[a]);
                        assert(rest.push(pv)[b] == rest[b]);
                    }
                }
            }
        }
    }

    /// A copy of the peers, in bucket order.
    pub fn get_peers(&self) -> (r: Vec<PeerInfo>)
        ensures
            r@.map_values(|p: PeerInfo| p@) == self@,
    {
        let r = copy_peers(&self.peers);
        assert(r@.map_values(|p: PeerInfo| p@) =~= self@);
        r
    }

    /// The entry with identifier `peer_id`, if any.
    pub fn get_peer(&self, peer_id: &NodeId) -> (r: Option<&PeerInfo>)
        ensures
            match r {
                Some(p) => p@.id == peer_id@ && self@.contains(p@),
                None => !has_id(self@, peer_id@),
            },
    {
        let mut i: usize = 0;
        while i < self.peers.len()
            invariant
                i <= self.peers@.len(),
                forall|j: int| 0 <= j < i ==> #[trigger] self@[j].id != peer_id@,
            decreases self.peers@.len() - i,
        {
            if self.peers[i].id.same_as(peer_id) {
                assert(self@[i as int] == self.peers@[i as int]@);
                return Some(&self.peers[i]);
            }
            i = i + 1;
        }
        None
    }

    pub fn len(&self) -> (r: usize)
        ensures
            r == self@.len(),
    {
        self.peers.len()
    }

    pub fn is_empty(&self) -> (r: bool)
        ensures
            r == (self@.len() == 0),
    {
        self.peers.len() == 0
    }

    /// The bucket holds `max_size` peers or more.
    pub fn is_full(&self) -> (r: bool)
        ensures
            r == (self@.len() >= self.max_size),
    {
        self.peers.len() >= self.max_size
    }
}

} // verus!
