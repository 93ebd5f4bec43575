//! Consecutive failed health checks per peer, and when to drop a peer.
use vstd::prelude::*;
use crate::bytes::copy_bytes;
use crate::node_id::NodeId;

verus! {

/// Failed checks in a row, by peer id.
pub struct HealthTracker {
    pub failures: Vec<(Vec<u8>, u8)>,
}

/// The failures recorded for `id`: those of its first entry, 0 if it has none.
pub open spec fn failures_of(s: Seq<(Seq<u8>, u8)>, id: Seq<u8>) -> u8
    decreases s.len(),
{
    if s.len() == 0 {
        0
    } else if s[0].0 == id {
        s[0].1
    } else {
        failures_of(s.drop_first(), id)
    }
}

/// One more failure, held at `u8::MAX`.
pub open spec fn one_more(n: u8) -> u8 {
    if n < u8::MAX {
        (n + 1) as u8
    } else {
        n
    }
}

proof fn lemma_set(s: Seq<(Seq<u8>, u8)>, i: int, id: Seq<u8>, v: u8)
    requires
        0 <= i < s.len(),
        s[i].0 == id,
        forall|t: int| 0 <= t < i ==> #[trigger] s[t].0 != id,
    ensures
        failures_of(s.update(i, (id, v)), id) == v,
        forall|k: Seq<u8>| k != id ==> #[trigger] failures_of(s.update(i, (id, v)), k) == failures_of(s, k),
    decreases s.len(),
{
    let u = s.update(i, (id, v));
    if i > 0 {
        assert(u.drop_first() =~= s.drop_first().update(i - 1, (id, v)));
        assert forall|t: int| 0 <= t < i - 1 implies #[trigger] s.drop_first()[t].0 != id by {
            assert(s[t + 1].0 != id);
        }
        lemma_set(s.drop_first(), i - 1, id, v);
        assert(s[0].0 != id);
        assert(u[0] == s[0]);
        assert forall|k: Seq<u8>| k != id implies #[trigger] failures_of(u, k) == failures_of(s, k) by {
            assert(u[0] == s[0]);
            assert(failures_of(s.drop_first().update(i - 1, (id, v)), k) == failures_of(
                s.drop_first(),
                k,
            ));
        }
    } else {
        assert(u.drop_first() =~= s.drop_first());
        assert forall|k: Seq<u8>| k != id implies #[trigger] failures_of(u, k) == failures_of(s, k) by {
            assert(u[0].0 == id);
        }
    }
}

proof fn lemma_push(s: Seq<(Seq<u8>, u8)>, id: Seq<u8>, v: u8)
    requires
        forall|t: int| 0 <= t < s.len() ==> #[trigger] s[t].0 != id,
    ensures
        failures_of(s.push((id, v)), id) == v,
        forall|k: Seq<u8>| k != id ==> #[trigger] failures_of(s.push((id, v)), k) == failures_of(s, k),
    decreases s.len(),
{
    let u = s.push((id, v));
    if s.len() > 0 {
        assert(u.drop_first() =~= s.drop_first().push((id, v)));
        assert forall|t: int| 0 <= t < s.len() - 1 implies #[trigger] s.drop_first()[t].0 != id by {
            assert(s[t + 1].0 != id);
        }
        lemma_push(s.drop_first(), id, v);
        assert(s[0].0 != id);
        assert forall|k: Seq<u8>| k != id implies #[trigger] failures_of(u, k) == failures_of(s, k) by {
            assert(u[0] == s[0]);
            assert(failures_of(s.drop_first().push((id, v)), k) == failures_of(s.drop_first(), k));
        }
    } else {
        assert(u.drop_first() =~= Seq::<(Seq<u8>, u8)>::empty());
        assert forall|k: Seq<u8>| k != id implies #[trigger] failures_of(u, k) == failures_of(s, k) by {
            assert(u[0].0 == id);
            assert(failures_of(u.drop_first(), k) == 0);
        }
    }
}

impl View for HealthTracker {
    type V = Seq<(Seq<u8>, u8)>;

    open spec fn view(&self) -> Seq<(Seq<u8>, u8)> {
        self.failures@.map_values(|e: (Vec<u8>, u8)| (e.0@, e.1))
    }
}

impl HealthTracker {
    pub fn new() -> (r: HealthTracker)
        ensures
            forall|id: Seq<u8>| #[trigger] failures_of(r@, id) == 0,
    {
        let r = HealthTracker { failures: Vec::new() };
        assert(r@ =~= Seq::<(Seq<u8>, u8)>::empty());
        r
    }

    /// Sets the failures of `id` to `v`.
    fn set(&mut self, id: &NodeId, v: u8)
        ensures
            failures_of(final(self)@, id@) == v,
            forall|k: Seq<u8>| k != id@ ==> #[trigger] failures_of(final(self)@, k) == failures_of(old(self)@, k),
    {
        let ghost s = self@;
        let mut i: usize = 0;
        while i < self.failures.len()
            invariant
                s == self@,
                s == old(self)@,
                i <= s.len(),
                forall|t: int| 0 <= t < i ==> #[trigger] s[t].0 != id@,
            decreases s.len() - i,
        {
            assert(s[i as int] == (self.failures@[i as int].0@, self.failures@[i as int].1));
            if crate::bytes::bytes_eq(self.failures[i].0.as_slice(), id.bytes.as_slice()) {
                let key = copy_bytes(id.bytes.as_slice());
                self.failures.set(i, (key, v));
                proof {
                    assert(self@ =~= s.update(i as int, (id@, v)));
                    lemma_set(s, i as int, id@, v);
                }
                return;
            }
            i = i + 1;
        }
        let key = copy_bytes(id.bytes.as_slice());
        self.failures.push((key, v));
        proof {
            assert(self@ =~= s.push((id@, v)));
            lemma_push(s, id@, v);
        }
    }

    /// A check of `id` succeeded: its count starts again from zero.
    pub fn record_success(&mut self, id: &NodeId)
        ensures
            failures_of(final(self)@, id@) == 0,
            forall|k: Seq<u8>| k != id@ ==> #[trigger] failures_of(final(self)@, k) == failures_of(old(self)@, k),
    {
        self.set(id, 0);
    }

    /// A check of `id` failed. Returns whether the peer has now failed
    /// `max_failures` times in a row and is to be dropped; a dropped peer's
    /// count starts again from zero.
    pub fn record_failure(&mut self, id: &NodeId, max_failures: u8) -> (r: bool)
        ensures
            r == (one_more(failures_of(old(self)@, id@)) >= max_failures),
            failures_of(final(self)@, id@) == if r {
                0
            } else {
                one_more(failures_of(old(self)@, id@))
            },
            forall|k: Seq<u8>| k != id@ ==> #[trigger] failures_of(final(self)@, k) == failures_of(old(self)@, k),
    {
        let n = self.failures_of(id);
        let next = n.saturating_add(1);
        if next >= max_failures {
            self.set(id, 0);
            true
        } else {
            self.set(id, next);
            false
        }
    }

    /// The failures recorded for `id`.
    pub fn failures_of(&self, id: &NodeId) -> (r: u8)
        ensures
            r == failures_of(self@, id@),
    {
        let ghost s = self@;
        let mut i: usize = 0;
        assert(s.skip(0) =~= s);
        while i < self.failures.len()
            invariant
                s == self@,
                i <= s.len(),
                failures_of(s, id@) == failures_of(s.skip(i as int), id@),
            decreases s.len() - i,
        {
            assert(s.skip(i as int).drop_first() =~= s.skip(i + 1));
            assert(s[i as int] == (self.failures@[i as int].0@, self.failures@[i as int].1));
            if crate::bytes::bytes_eq(self.failures[i].0.as_slice(), id.bytes.as_slice()) {
                return self.failures[i].1;
            }
            i = i + 1;
        }
        0
    }
}

} // verus!
