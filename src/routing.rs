//! The routing table: one k-bucket per bucket index, seen from the owner's id.
use vstd::prelude::*;
use crate::kbucket::{
    KBucket, distinct_ids, has_id, lemma_filter_subset, lemma_update_idempotent, updated, without_id,
};
use crate::node_id::{
    BUCKET_COUNT, ID_LEN, NodeId, bucket_from, bucket_of, closer, distance_lt, lemma_lt_from_irreflexive,
    lemma_lt_from_trans, xor_seq,
};
use crate::peer::{PeerInfo, PeerView};

verus! {

pub struct RoutingTable {
    pub id: NodeId,
    pub buckets: Vec<KBucket>,
    pub k: usize,
}

/// The peers of all buckets, bucket 0 first.
pub open spec fn all_of(bs: Seq<Seq<PeerView>>) -> Seq<PeerView>
    decreases bs.len(),
{
    if bs.len() == 0 {
        Seq::empty()
    } else {
        all_of(bs.drop_last()) + bs.last()
    }
}

/// The number of peers over all buckets.
pub open spec fn total_len(bs: Seq<Seq<PeerView>>) -> nat
    decreases bs.len(),
{
    if bs.len() == 0 {
        0
    } else {
        total_len(bs.drop_last()) + bs.last().len()
    }
}

/// Every entry of bucket `j` is a well-formed id, other than `own`, whose
/// bucket index seen from `own` is `j`; no bucket repeats an id.
pub open spec fn buckets_placed(own: Seq<u8>, bs: Seq<Seq<PeerView>>) -> bool {
    forall|j: int, t: int|
        0 <= j < bs.len() && 0 <= t < bs[j].len() ==> {
            &&& #[trigger] bs[j][t].id.len() == ID_LEN
            &&& bs[j][t].id != own
            &&& bucket_of(own, bs[j][t].id) == j
        }
}

impl View for RoutingTable {
    type V = Seq<Seq<PeerView>>;

    open spec fn view(&self) -> Seq<Seq<PeerView>> {
        self.buckets@.map_values(|b: KBucket| b@)
    }
}

proof fn lemma_all_of_len(bs: Seq<Seq<PeerView>>)
    ensures
        all_of(bs).len() == total_len(bs),
    decreases bs.len(),
{
    if bs.len() > 0 {
        lemma_all_of_len(bs.drop_last());
    }
}

proof fn lemma_total_bound(bs: Seq<Seq<PeerView>>, k: nat)
    requires
        forall|j: int| 0 <= j < bs.len() ==> #[trigger] bs[j].len() <= k,
    ensures
        total_len(bs) <= bs.len() * k,
    decreases bs.len(),
{
    if bs.len() > 0 {
        let d = bs.drop_last();
        assert forall|j: int| 0 <= j < d.len() implies #[trigger] d[j].len() <= k by {
            assert(d[j] == bs[j]);
        }
        lemma_total_bound(d, k);
        assert(bs.len() * k == d.len() * k + k) by (nonlinear_arith)
            requires
                bs.len() == d.len() + 1,
        ;
    }
}

proof fn lemma_all_of_contains(bs: Seq<Seq<PeerView>>, x: PeerView)
    requires
        all_of(bs).contains(x),
    ensures
        exists|j: int, t: int| 0 <= j < bs.len() && 0 <= t < bs[j].len() && #[trigger] bs[j][t] == x,
    decreases bs.len(),
{
    let d = bs.drop_last();
    let u = choose|u: int| 0 <= u < all_of(bs).len() && all_of(bs)[u] == x;
    lemma_all_of_len(d);
    if u < all_of(d).len() {
        assert(all_of(d)[u] == x);
        lemma_all_of_contains(d, x);
        let (j, t) = choose|j: int, t: int|
            0 <= j < d.len() && 0 <= t < d[j].len() && #[trigger] d[j][t] == x;
        assert(bs[j] == d[j]);
    } else {
        let t = u - all_of(d).len();
        assert(bs[bs.len() - 1][t] == x);
    }
}

/// `r` lists up to `count` peers of the table closest to `target`, closest
/// first: as many as the table holds, up to `count`, and every peer left out
/// is no closer than any listed.
pub open spec fn is_closest(bs: Seq<Seq<PeerView>>, target: Seq<u8>, count: nat, r: Seq<PeerView>) -> bool {
    &&& r.len() == if count < total_len(bs) {
        count
    } else {
        total_len(bs)
    }
    &&& forall|t: int| 0 <= t < r.len() ==> all_of(bs).contains(#[trigger] r[t])
    &&& forall|a: int, b: int| 0 <= a < b < r.len() ==> !closer(target, r[b].id, r[a].id)
    &&& forall|x: PeerView|
        #[trigger] all_of(bs).contains(x) ==> r.contains(x) || forall|t: int|
            0 <= t < r.len() ==> !closer(target, x.id, r[t].id)
}

/// The table after adding `p`: its bucket updated, unless `p` has the
/// owner's id.
pub open spec fn add_step(t: Seq<Seq<PeerView>>, own: Seq<u8>, k: nat, p: PeerView) -> Seq<Seq<PeerView>> {
    if p.id == own {
        t
    } else {
        t.update(bucket_of(own, p.id) as int, updated(t[bucket_of(own, p.id) as int], k, p))
    }
}

/// The table after adding the peers of `ps`, first to last.
pub open spec fn absorbed(t: Seq<Seq<PeerView>>, own: Seq<u8>, k: nat, ps: Seq<PeerView>) -> Seq<Seq<PeerView>>
    decreases ps.len(),
{
    if ps.len() == 0 {
        t
    } else {
        absorbed(add_step(t, own, k, ps[0]), own, k, ps.drop_first())
    }
}

/// Adding one more peer at the end of the list is one more step.
pub proof fn lemma_absorbed_push(t: Seq<Seq<PeerView>>, own: Seq<u8>, k: nat, ps: Seq<PeerView>, p: PeerView)
    ensures
        absorbed(t, own, k, ps.push(p)) == add_step(absorbed(t, own, k, ps), own, k, p),
    decreases ps.len(),
{
    if ps.len() == 0 {
        assert(ps.push(p).drop_first() =~= Seq::<PeerView>::empty());
        assert(ps.push(p)[0] == p);
        assert(absorbed(add_step(t, own, k, p), own, k, Seq::<PeerView>::empty()) == add_step(t, own, k, p));
    } else {
        assert(ps.push(p).drop_first() =~= ps.drop_first().push(p));
        assert(ps.push(p)[0] == ps[0]);
        lemma_absorbed_push(add_step(t, own, k, ps[0]), own, k, ps.drop_first(), p);
    }
}

/// Every id that `a` holds in a bucket, `b` holds in the same bucket.
pub open spec fn keeps_ids(a: Seq<Seq<PeerView>>, b: Seq<Seq<PeerView>>) -> bool {
    &&& a.len() == b.len()
    &&& forall|j: int, x: Seq<u8>| 0 <= j < a.len() && #[trigger] has_id(a[j], x) ==> has_id(b[j], x)
}

/// Adding a peer never loses a known id.
pub proof fn lemma_add_keeps(t: Seq<Seq<PeerView>>, k: nat, j: int, p: PeerView)
    requires
        0 <= j < t.len(),
        forall|i: int| 0 <= i < t.len() ==> distinct_ids(#[trigger] t[i]) && t[i].len() <= k,
    ensures
        keeps_ids(t, t.update(j, updated(t[j], k, p))),
{
    let n = t.update(j, updated(t[j], k, p));
    assert forall|i: int, x: Seq<u8>| 0 <= i < t.len() && #[trigger] has_id(t[i], x) implies has_id(
        n[i],
        x,
    ) by {
        if i == j {
            crate::kbucket::lemma_update_keeps(t[j], k, p, x);
        }
    }
}

/// Adding a peer twice leaves the table as adding it once. Afterwards exactly
/// one entry has its id, in the bucket of its index and no other, unless the
/// peer was new and its bucket already full.
pub proof fn lemma_add_peer_twice(t: Seq<Seq<PeerView>>, own: Seq<u8>, k: nat, p: PeerView)
    requires
        t.len() == BUCKET_COUNT,
        buckets_placed(own, t),
        forall|j: int| 0 <= j < t.len() ==> distinct_ids(#[trigger] t[j]) && t[j].len() <= k,
        own.len() == ID_LEN,
        p.id.len() == ID_LEN,
        p.id != own,
    ensures
        ({
            let j = bucket_of(own, p.id) as int;
            let once = t.update(j, updated(t[j], k, p));
            &&& once.update(j, updated(once[j], k, p)) == once
            &&& distinct_ids(once[j])
            &&& (has_id(t[j], p.id) || t[j].len() < k) ==> has_id(once[j], p.id)
            &&& forall|i: int| 0 <= i < t.len() && i != j ==> !has_id(#[trigger] once[i], p.id)
        }),
{
    let j = bucket_of(own, p.id) as int;
    assert(j < BUCKET_COUNT) by {
        lemma_bucket_range(own, p.id, 0);
    }
    lemma_update_idempotent(t[j], k, p);
    let once = t.update(j, updated(t[j], k, p));
    assert(once.update(j, updated(once[j], k, p)) =~= once);
    assert forall|i: int| 0 <= i < t.len() && i != j implies !has_id(#[trigger] once[i], p.id) by {
        assert(once[i] == t[i]);
        if has_id(t[i], p.id) {
            let u = choose|u: int| 0 <= u < t[i].len() && t[i][u].id == p.id;
            assert(t[i][u].id.len() == ID_LEN);
        }
    }
}

proof fn lemma_bucket_range(a: Seq<u8>, b: Seq<u8>, i: int)
    requires
        a.len() == ID_LEN,
        0 <= i,
    ensures
        bucket_from(a, b, i) < BUCKET_COUNT,
    decreases a.len() - i,
{
    if i < a.len() {
        if a[i] == b[i] {
            lemma_bucket_range(a, b, i + 1);
        } else {
            let (x, y) = (a[i], b[i]);
            assert(x ^ y != 0) by (bit_vector)
                requires
                    x != y,
            ;
        }
    }
}

impl RoutingTable {
    pub open spec fn wf(&self) -> bool {
        &&& self.id.wf()
        &&& self.buckets@.len() == BUCKET_COUNT
        &&& BUCKET_COUNT * self.k <= usize::MAX
        &&& forall|j: int|
            0 <= j < BUCKET_COUNT ==> (#[trigger] self.buckets@[j]).wf()
                && self.buckets@[j].max_size == self.k
        &&& buckets_placed(self.id@, self@)
    }

    /// An empty table for the node `id`, with buckets of capacity `k`.
    pub fn new(id: NodeId, k: usize) -> (r: RoutingTable)
        requires
            id.wf(),
            BUCKET_COUNT * k <= usize::MAX,
        ensures
            r.wf(),
            r.id@ == id@,
            r.k == k,
            forall|j: int| 0 <= j < BUCKET_COUNT ==> #[trigger] r@[j].len() == 0,
    {
        let mut buckets: Vec<KBucket> = Vec::new();
        let mut i: usize = 0;
        while i < BUCKET_COUNT
            invariant
                i <= BUCKET_COUNT,
                buckets@.len() == i,
                forall|j: int|
                    0 <= j < i ==> (#[trigger] buckets@[j]).wf() && buckets@[j].max_size == k
                        && buckets@[j]@.len() == 0,
            decreases BUCKET_COUNT - i,
        {
            buckets.push(KBucket::new(k));
            i = i + 1;
        }
        RoutingTable { id, buckets, k }
    }

    /// An empty table holds no peers.
    pub proof fn lemma_empty(&self)
        requires
            forall|j: int| 0 <= j < self@.len() ==> #[trigger] self@[j].len() == 0,
        ensures
            total_len(self@) == 0,
    {
        lemma_total_bound(self@, 0);
    }

    /// Records that `peer` was seen, in the bucket of its index. A peer with the
    /// table's own id is ignored.
    pub fn add_peer(&mut self, peer: PeerInfo)
        requires
            old(self).wf(),
            peer.wf(),
        ensures
            final(self).wf(),
            final(self).id == old(self).id,
            final(self).k == old(self).k,
            peer@.id == old(self).id@ ==> final(self)@ == old(self)@,
            peer@.id != old(self).id@ ==> final(self)@ == old(self)@.update(
                bucket_of(old(self).id@, peer@.id) as int,
                updated(old(self)@[bucket_of(old(self).id@, peer@.id) as int], old(self).k as nat, peer@),
            ),
    {
        if peer.id.same_as(&self.id) {
            return;
        }
        let j = self.id.bucket_index(&peer.id);
        let ghost s = self@;
        let ghost pv = peer@;
        let mut b = self.buckets.remove(j);
        let ghost bs = b@;
        b.update_peer(peer);
        self.buckets.insert(j, b);
        proof {
            let n = self@;
            assert(n =~= s.update(j as int, updated(bs, self.k as nat, pv)));
            assert forall|i: int| 0 <= i < BUCKET_COUNT implies (#[trigger] self.buckets@[i]).wf()
                && self.buckets@[i].max_size == self.k by {
                if i != j {
                    assert(self.buckets@[i]@ == s[i]);
                }
            }
            s[j as int].filter_lemma(|p: PeerView| p.id != pv.id);
            assert forall|i: int, t: int| 0 <= i < n.len() && 0 <= t < n[i].len() implies {
                &&& #[trigger] n[i][t].id.len() == ID_LEN
                &&& n[i][t].id != self.id@
                &&& bucket_of(self.id@, n[i][t].id) == i
            } by {
                if i == j {
                    let rest = without_id(bs, pv.id);
                    if t < rest.len() {
                        assert(n[i][t] == rest[t]);
                        assert(rest.contains(rest[t]));
                        lemma_filter_subset(bs, |p: PeerView| p.id != pv.id, rest[t]);
                        let u = choose|u: int| 0 <= u < bs.len() && bs[u] == rest[t];
                        assert(s[i][u] == bs[u]);
                    }
                } else {
                    assert(n[i] == s[i]);
                }
            }
        }
    }

    /// Takes the peer with identifier `id` out of its bucket, if it is there.
    pub fn remove_peer(&mut self, id: &NodeId)
        requires
            old(self).wf(),
            id.wf(),
        ensures
            final(self).wf(),
            final(self).id == old(self).id,
            final(self).k == old(self).k,
            id@ == old(self).id@ ==> final(self)@ == old(self)@,
            id@ != old(self).id@ ==> final(self)@ == old(self)@.update(
                bucket_of(old(self).id@, id@) as int,
                without_id(old(self)@[bucket_of(old(self).id@, id@) as int], id@),
            ),
    {
        if id.same_as(&self.id) {
            return;
        }
        let j = self.id.bucket_index(id);
        let ghost s = self@;
        let mut b = self.buckets.remove(j);
        let ghost bs = b@;
        b.remove_peer(id);
        self.buckets.insert(j, b);
        proof {
            let n = self@;
            assert(n =~= s.update(j as int, without_id(bs, id@)));
            assert forall|i: int| 0 <= i < BUCKET_COUNT implies (#[trigger] self.buckets@[i]).wf()
                && self.buckets@[i].max_size == self.k by {
                if i != j {
                    assert(self.buckets@[i]@ == s[i]);
                }
            }
            assert forall|i: int, t: int| 0 <= i < n.len() && 0 <= t < n[i].len() implies {
                &&& #[trigger] n[i][t].id.len() == ID_LEN
                &&& n[i][t].id != self.id@
                &&& bucket_of(self.id@, n[i][t].id) == i
            } by {
                if i == j {
                    let rest = without_id(bs, id@);
                    assert(rest.contains(rest[t]));
                    lemma_filter_subset(bs, |p: PeerView| p.id != id@, rest[t]);
                    let u = choose|u: int| 0 <= u < bs.len() && bs[u] == rest[t];
                    assert(s[i][u] == bs[u]);
                } else {
                    assert(n[i] == s[i]);
                }
            }
        }
    }

    /// All peers, bucket 0 first.
    pub fn list_peers(&self) -> (r: Vec<PeerInfo>)
        ensures
            r@.map_values(|p: PeerInfo| p@) == all_of(self@),
    {
        let mut r: Vec<PeerInfo> = Vec::new();
        let mut i: usize = 0;
        while i < self.buckets.len()
            invariant
                i <= self@.len(),
                self@.len() == self.buckets@.len(),
                r@.map_values(|p: PeerInfo| p@) == all_of(self@.take(i as int)),
            decreases self@.len() - i,
        {
            let ghost before = r@.map_values(|p: PeerInfo| p@);
            let bucket = &self.buckets[i];
            let mut t: usize = 0;
            while t < bucket.peers.len()
                invariant
                    t <= bucket@.len(),
                    i < self@.len(),
                    bucket@ == self@[i as int],
                    r@.map_values(|p: PeerInfo| p@) == before + bucket@.take(t as int),
                decreases bucket@.len() - t,
            {
                assert(bucket@[t as int] == bucket.peers@[t as int]@);
                let ghost prev = r@;
                let c = bucket.peers[t].copy();
                r.push(c);
                assert(r@.map_values(|p: PeerInfo| p@) =~= prev.map_values(|p: PeerInfo| p@).push(
                    bucket@[t as int],
                ));
                assert(before + bucket@.take(t + 1) =~= (before + bucket@.take(t as int)).push(
                    bucket@[t as int],
                ));
                t = t + 1;
            }
            assert(self@.take(i + 1).drop_last() =~= self@.take(i as int));
            assert(bucket@.take(t as int) =~= bucket@);
            i = i + 1;
        }
        assert(self@.take(i as int) =~= self@);
        r
    }

    /// The number of peers over all buckets.
    pub fn peer_count(&self) -> (r: usize)
        requires
            self.wf(),
        ensures
            r == total_len(self@),
    {
        proof {
            self.lemma_bounded();
        }
        let mut n: usize = 0;
        let mut i: usize = 0;
        while i < self.buckets.len()
            invariant
                self.wf(),
                i <= BUCKET_COUNT,
                n == total_len(self@.take(i as int)),
                total_len(self@) <= BUCKET_COUNT * self.k,
            decreases BUCKET_COUNT - i,
        {
            assert(self@.take(i + 1).drop_last() =~= self@.take(i as int));
            proof {
                self.lemma_prefix_bounded(i + 1);
            }
            n = n + self.buckets[i].len();
            i = i + 1;
        }
        assert(self@.take(i as int) =~= self@);
        n
    }

    proof fn lemma_prefix_bounded(&self, i: int)
        requires
            self.wf(),
            0 <= i <= BUCKET_COUNT,
        ensures
            total_len(self@.take(i)) <= BUCKET_COUNT * self.k,
    {
        let p = self@.take(i);
        assert forall|j: int| 0 <= j < p.len() implies #[trigger] p[j].len() <= self.k by {
            assert(self.buckets@[j].wf());
        }
        lemma_total_bound(p, self.k as nat);
        assert(p.len() * self.k <= BUCKET_COUNT * self.k) by (nonlinear_arith)
            requires
                p.len() <= BUCKET_COUNT,
        ;
    }

    /// The bucket index of any id lies in the table.
    pub proof fn lemma_bucket_index_range(&self, id: Seq<u8>)
        requires
            self.wf(),
        ensures
            bucket_of(self.id@, id) < BUCKET_COUNT,
    {
        lemma_bucket_range(self.id@, id, 0);
    }

    /// Buckets hold distinct ids, within capacity.
    pub proof fn lemma_buckets_wf(&self)
        requires
            self.wf(),
        ensures
            forall|i: int|
                0 <= i < self@.len() ==> distinct_ids(#[trigger] self@[i]) && self@[i].len() <= self.k,
    {
        assert forall|i: int| 0 <= i < self@.len() implies distinct_ids(#[trigger] self@[i])
            && self@[i].len() <= self.k by {
            assert(self.buckets@[i].wf());
        }
    }

    /// The table never holds more than one full bucket per bucket index:
    /// `160 * k` peers in all.
    pub proof fn lemma_bounded(&self)
        requires
            self.wf(),
        ensures
            total_len(self@) <= BUCKET_COUNT * self.k,
    {
        self.lemma_prefix_bounded(BUCKET_COUNT as int);
        assert(self@.take(BUCKET_COUNT as int) =~= self@);
    }

    /// Every bucket holds distinct ids, each of which falls in that bucket.
    pub proof fn lemma_placed(&self, j: int)
        requires
            self.wf(),
            0 <= j < BUCKET_COUNT,
        ensures
            distinct_ids(self@[j]),
            forall|t: int|
                0 <= t < self@[j].len() ==> bucket_of(self.id@, #[trigger] self@[j][t].id) == j,
    {
        assert(self.buckets@[j].wf());
        assert forall|t: int| 0 <= t < self@[j].len() implies bucket_of(
            self.id@,
            #[trigger] self@[j][t].id,
        ) == j by {
            assert(self@[j][t].id.len() == ID_LEN);
        }
    }

    /// The `count` peers closest to `target` in XOR distance, closest first.
    pub fn closest_peers(&self, target: &NodeId, count: usize) -> (r: Vec<PeerInfo>)
        requires
            self.wf(),
            target.wf(),
        ensures
            r@.len() == if count < total_len(self@) {
                count as nat
            } else {
                total_len(self@)
            },
            forall|t: int| 0 <= t < r@.len() ==> all_of(self@).contains(#[trigger] r@[t]@),
            forall|a: int, b: int|
                0 <= a < b < r@.len() ==> !closer(target@, r@[b]@.id, r@[a]@.id),
            forall|x: PeerView|
                #[trigger] all_of(self@).contains(x) ==> r@.map_values(|p: PeerInfo| p@).contains(
                    x,
                ) || forall|t: int| 0 <= t < r@.len() ==> !closer(target@, x.id, r@[t]@.id),
            is_closest(self@, target@, count as nat, r@.map_values(|p: PeerInfo| p@)),
    {
        let mut v = self.list_peers();
        let ghost all = all_of(self@);
        proof {
            assert forall|u: int| 0 <= u < v@.len() implies all.contains(#[trigger] v@[u]@) by {
                assert(v@.map_values(|p: PeerInfo| p@)[u] == v@[u]@);
            }
            lemma_all_of_len(self@);
            assert forall|u: int| 0 <= u < all.len() implies (#[trigger] all[u]).id.len() == ID_LEN by {
                assert(all.contains(all[u]));
                lemma_all_of_contains(self@, all[u]);
            }
        }
        let n: usize = if count < v.len() {
            count
        } else {
            v.len()
        };
        let mut i: usize = 0;
        while i < n
            invariant
                n <= v@.len(),
                i <= n,
                v@.len() == all.len(),
                target.wf(),
                forall|u: int| 0 <= u < all.len() ==> (#[trigger] all[u]).id.len() == ID_LEN,
                forall|u: int| 0 <= u < v@.len() ==> all.contains(#[trigger] v@[u]@),
                forall|x: PeerView|
                    #[trigger] all.contains(x) ==> v@.map_values(|p: PeerInfo| p@).contains(x),
                forall|a: int, b: int|
                    0 <= a < b < i ==> !closer(target@, v@[b]@.id, v@[a]@.id),
                forall|a: int, b: int|
                    0 <= a < i <= b < v@.len() ==> !closer(target@, v@[b]@.id, v@[a]@.id),
            decreases n - i,
        {
            // Find the closest of the entries from `i` on.
            let ghost w = v@;
            assert(all.contains(w[i as int]@));
            let mut best: usize = i;
            let mut dbest = target.distance(&v[i].id);
            let mut t: usize = i + 1;
            proof {
                lemma_lt_from_irreflexive(xor_seq(v@[i as int]@.id, target@), 0);
            }
            while t < v.len()
                invariant
                    i < v@.len(),
                    w == v@,
                    i <= best < t <= v@.len(),
                    target.wf(),
                    v@[best as int]@.id.len() == ID_LEN,
                    forall|u: int| 0 <= u < all.len() ==> (#[trigger] all[u]).id.len() == ID_LEN,
                    forall|u: int| 0 <= u < v@.len() ==> all.contains(#[trigger] v@[u]@),
                    dbest@ == xor_seq(target@, v@[best as int]@.id),
                    forall|u: int|
                        i <= u < t ==> !closer(target@, #[trigger] v@[u]@.id, v@[best as int]@.id),
                decreases v@.len() - t,
            {
                proof {
                    let x = v@[t as int]@;
                    assert(all.contains(x));
                    let q = choose|q: int| 0 <= q < all.len() && all[q] == x;
                    assert(all[q].id.len() == ID_LEN);
                }
                let d = target.distance(&v[t].id);
                proof {
                    crate::node_id::lemma_distance_laws(target@, v@[t as int]@.id, target@);
                    crate::node_id::lemma_distance_laws(target@, v@[best as int]@.id, target@);
                }
                if distance_lt(d.as_slice(), dbest.as_slice()) {
                    proof {
                        assert forall|u: int| i <= u < t + 1 implies !closer(
                            target@,
                            #[trigger] v@[u]@.id,
                            v@[t as int]@.id,
                        ) by {
                            if u == t {
                                lemma_lt_from_irreflexive(xor_seq(v@[u]@.id, target@), 0);
                            } else if closer(target@, v@[u]@.id, v@[t as int]@.id) {
                                lemma_lt_from_trans(
                                    xor_seq(v@[u]@.id, target@),
                                    xor_seq(v@[t as int]@.id, target@),
                                    xor_seq(v@[best as int]@.id, target@),
                                    0,
                                );
                            }
                        }
                    }
                    best = t;
                    dbest = d;
                }
                t = t + 1;
            }
            // Move it to position `i`.
            let pi = v[i].copy();
            let pb = v[best].copy();
            v.set(i, pb);
            v.set(best, pi);
            proof {
                let nv = v@;
                assert forall|u: int| 0 <= u < nv.len() implies all.contains(#[trigger] nv[u]@) by {
                    if u == i {
                        assert(nv[u]@ == w[best as int]@);
                    } else if u == best {
                        assert(nv[u]@ == w[i as int]@);
                    } else {
                        assert(nv[u] == w[u]);
                    }
                }
                assert forall|x: PeerView| #[trigger] all.contains(x) implies nv.map_values(
                    |p: PeerInfo| p@,
                ).contains(x) by {
                    let wm = w.map_values(|p: PeerInfo| p@);
                    let nm = nv.map_values(|p: PeerInfo| p@);
                    assert(wm.contains(x));
                    let u = choose|u: int| 0 <= u < wm.len() && #[trigger] wm[u] == x;
                    if u == i {
                        assert(nm[best as int] == x);
                    } else if u == best {
                        assert(nm[i as int] == x);
                    } else {
                        assert(nm[u] == x);
                    }
                }
                assert forall|a: int, b: int| 0 <= a < b < i + 1 implies !closer(
                    target@,
                    nv[b]@.id,
                    nv[a]@.id,
                ) by {
                    if b == i {
                        assert(nv[a] == w[a]);
                        assert(nv[b]@ == w[best as int]@);
                    } else {
                        assert(nv[a] == w[a]);
                        assert(nv[b] == w[b]);
                    }
                }
                assert forall|a: int, b: int| 0 <= a < i + 1 <= b < nv.len() implies !closer(
                    target@,
                    nv[b]@.id,
                    nv[a]@.id,
                ) by {
                    let wb = if b == best {
                        i as int
                    } else {
                        b
                    };
                    assert(nv[b]@ == w[wb]@);
                    if a == i {
                        assert(nv[a]@ == w[best as int]@);
                        assert(!closer(target@, w[wb]@.id, w[best as int]@.id));
                    } else {
                        assert(nv[a] == w[a]);
                    }
                }
            }
            i = i + 1;
        }
        let ghost vv = v@;
        v.truncate(n);
        proof {
            let r = v@;
            let rm = r.map_values(|p: PeerInfo| p@);
            assert forall|t: int| 0 <= t < r.len() implies #[trigger] rm[t] == r[t]@ by {}
            assert(r =~= vv.take(n as int));
            assert forall|x: PeerView| #[trigger] all.contains(x) implies r.map_values(
                |p: PeerInfo| p@,
            ).contains(x) || forall|t: int| 0 <= t < r.len() ==> !closer(target@, x.id, r[t]@.id) by {
                let vm = vv.map_values(|p: PeerInfo| p@);
                let rm = r.map_values(|p: PeerInfo| p@);
                assert(vm.contains(x));
                let u = choose|u: int| 0 <= u < vm.len() && #[trigger] vm[u] == x;
                if u < n {
                    assert(rm[u] == x);
                } else {
                    assert forall|t: int| 0 <= t < r.len() implies !closer(target@, x.id, r[t]@.id) by {
                        assert(r[t] == vv[t]);
                        assert(vv[u]@ == x);
                    }
                }
            }
        }
        v
    }
}

} // verus!
