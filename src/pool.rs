//! The idle side of a connection pool: connections put back after use, taken
//! again most recent first, and dropped once idle too long. Times are
//! readings of a monotonic clock, in milliseconds.
use vstd::prelude::*;
use crate::peer::NetAddr;

verus! {

/// An idle connection to `addr`, last used at `last_used`.
pub struct IdleEntry<S> {
    pub addr: NetAddr,
    pub conn: S,
    pub last_used: u64,
}

/// Idle connections, oldest put back first.
pub struct IdlePool<S> {
    pub entries: Vec<IdleEntry<S>>,
    pub max_idle_time: u64,
}

/// Milliseconds from `last_used` to `now`; 0 if the clock reads earlier.
pub open spec fn idle_for(last_used: u64, now: u64) -> u64 {
    if now >= last_used {
        (now - last_used) as u64
    } else {
        0
    }
}

/// A connection idle for less than `max_idle` may be used again.
pub open spec fn fresh(e: (NetAddr, u64), now: u64, max_idle: u64) -> bool {
    idle_for(e.1, now) < max_idle
}

pub open spec fn entry_view<S>(e: IdleEntry<S>) -> (NetAddr, u64) {
    (e.addr, e.last_used)
}

impl<S> View for IdlePool<S> {
    type V = Seq<(NetAddr, u64)>;

    open spec fn view(&self) -> Seq<(NetAddr, u64)> {
        self.entries@.map_values(|e: IdleEntry<S>| entry_view(e))
    }
}

proof fn lemma_filter_cons(x: (NetAddr, u64), s: Seq<(NetAddr, u64)>, pred: spec_fn((NetAddr, u64)) -> bool)
    ensures
        (seq![x] + s).filter(pred) == if pred(x) {
            seq![x] + s.filter(pred)
        } else {
            s.filter(pred)
        },
{
    broadcast use Seq::filter_distributes_over_add;
    reveal_with_fuel(Seq::filter, 2);
    assert(seq![x].drop_last() =~= Seq::<(NetAddr, u64)>::empty());
}

proof fn lemma_skip_cons(s: Seq<(NetAddr, u64)>, i: int)
    requires
        0 <= i < s.len(),
    ensures
        s.skip(i) == seq![s[i]] + s.skip(i + 1),
        s.take(i + 1) == s.take(i).push(s[i]),
{
    assert(s.skip(i) =~= seq![s[i]] + s.skip(i + 1));
    assert(s.take(i + 1) =~= s.take(i).push(s[i]));
}

impl<S> IdlePool<S> {
    /// An empty pool dropping connections idle for `max_idle_time` or more.
    pub fn new(max_idle_time: u64) -> (r: IdlePool<S>)
        ensures
            r@ == Seq::<(NetAddr, u64)>::empty(),
            r.max_idle_time == max_idle_time,
    {
        let r = IdlePool { entries: Vec::new(), max_idle_time };
        assert(r@ =~= Seq::<(NetAddr, u64)>::empty());
        r
    }

    /// Takes the idle connection to `addr` put back most recently, dropping
    /// the stale ones to `addr` met on the way. Returns `None`, with every
    /// connection to `addr` dropped, when none is fresh at `now`.
    pub fn take(&mut self, addr: NetAddr, now: u64) -> (r: Option<S>)
        ensures
            final(self).max_idle_time == old(self).max_idle_time,
            ({
                let s = old(self)@;
                let other = |e: (NetAddr, u64)| e.0 != addr;
                let max = old(self).max_idle_time;
                match r {
                    Some(_) => exists|j: int|
                        0 <= j < s.len() && s[j].0 == addr && fresh(s[j], now, max)
                            && r == Some(old(self).entries@[j].conn) && (forall|t: int|
                            j < t < s.len() && #[trigger] s[t].0 == addr ==> !fresh(s[t], now, max))
                            && final(self)@ == s.take(j) + s.skip(j + 1).filter(other),
                    None => (forall|t: int|
                        0 <= t < s.len() && #[trigger] s[t].0 == addr ==> !fresh(s[t], now, max))
                        && final(self)@ == s.filter(other),
                }
            }),
    {
        let ghost s = self@;
        let ghost other = |e: (NetAddr, u64)| e.0 != addr;
        let ghost max = self.max_idle_time;
        let mut i: usize = self.entries.len();
        assert(s.skip(i as int) =~= Seq::<(NetAddr, u64)>::empty());
        assert(s.take(i as int) =~= s);
        proof {
            reveal(Seq::filter);
        }
        assert(s.take(i as int) + s.skip(i as int).filter(other) =~= s);
        while i > 0
            invariant
                i <= s.len(),
                max == self.max_idle_time,
                max == old(self).max_idle_time,
                s == old(self)@,
                forall|t: int| 0 <= t < i ==> #[trigger] self.entries@[t] == old(self).entries@[t],
                other == (|e: (NetAddr, u64)| e.0 != addr),
                self@ == s.take(i as int) + s.skip(i as int).filter(other),
                self@.len() >= i,
                forall|t: int| i <= t < s.len() && #[trigger] s[t].0 == addr ==> !fresh(s[t], now, max),
            decreases i,
        {
            i = i - 1;
            proof {
                lemma_skip_cons(s, i as int);
                lemma_filter_cons(s[i as int], s.skip(i + 1), other);
                assert(self@[i as int] == s[i as int]);
            }
            assert(entry_view(self.entries@[i as int]) == s[i as int]);
            if self.entries[i].addr == addr {
                let ghost prev = self@;
                let ghost pe = self.entries@;
                let e = self.entries.remove(i);
                assert(e == old(self).entries@[i as int]);
                assert forall|t: int| 0 <= t < i implies #[trigger] self.entries@[t] == old(
                    self,
                ).entries@[t] by {
                    assert(self.entries@[t] == pe[t]);
                }
                proof {
                    assert(self@ =~= prev.remove(i as int));
                    assert(!other(s[i as int]));
                    assert(prev =~= s.take(i as int).push(s[i as int]) + s.skip(i + 1).filter(other));
                    assert(self@ =~= s.take(i as int) + s.skip(i as int).filter(other));
                }
                let idle = if now >= e.last_used {
                    now - e.last_used
                } else {
                    0
                };
                if idle < self.max_idle_time {
                    proof {
                        assert(s.skip(i as int).filter(other) == s.skip(i + 1).filter(other));
                        assert(s[i as int].0 == addr);
                        assert(fresh(s[i as int], now, max));
                        assert(self@ == s.take(i as int) + s.skip(i + 1).filter(other));
                    }
                    return Some(e.conn);
                }
            } else {
                proof {
                    assert(self@ =~= s.take(i as int) + s.skip(i as int).filter(other));
                }
            }
        }
        assert(s.take(0) =~= Seq::<(NetAddr, u64)>::empty());
        assert(s.skip(0) =~= s);
        assert(self@ =~= s.filter(other));
        None
    }

    /// Puts a connection to `addr` back, last used at `now`.
    pub fn put_back(&mut self, addr: NetAddr, conn: S, now: u64)
        ensures
            final(self).max_idle_time == old(self).max_idle_time,
            final(self).entries@ == old(self).entries@.push(IdleEntry { addr, conn, last_used: now }),
            final(self)@ == old(self)@.push((addr, now)),
    {
        let ghost s = self@;
        self.entries.push(IdleEntry { addr, conn, last_used: now });
        assert(self@ =~= s.push((addr, now)));
    }

    /// Drops every connection not fresh at `now`; the others stay, in order.
    pub fn clean(&mut self, now: u64)
        ensures
            final(self).max_idle_time == old(self).max_idle_time,
            final(self)@ == old(self)@.filter(
                |e: (NetAddr, u64)| fresh(e, now, old(self).max_idle_time),
            ),
    {
        let ghost s = self@;
        let ghost keep = |e: (NetAddr, u64)| fresh(e, now, self.max_idle_time);
        let mut i: usize = self.entries.len();
        assert(s.skip(i as int) =~= Seq::<(NetAddr, u64)>::empty());
        assert(s.take(i as int) =~= s);
        proof {
            reveal(Seq::filter);
        }
        assert(s.take(i as int) + s.skip(i as int).filter(keep) =~= s);
        while i > 0
            invariant
                i <= s.len(),
                self.max_idle_time == old(self).max_idle_time,
                keep == (|e: (NetAddr, u64)| fresh(e, now, self.max_idle_time)),
                self@ == s.take(i as int) + s.skip(i as int).filter(keep),
                self@.len() >= i,
            decreases i,
        {
            i = i - 1;
            proof {
                lemma_skip_cons(s, i as int);
                lemma_filter_cons(s[i as int], s.skip(i + 1), keep);
                assert(self@[i as int] == s[i as int]);
            }
            assert(entry_view(self.entries@[i as int]) == s[i as int]);
            let last_used = self.entries[i].last_used;
            let idle = if now >= last_used {
                now - last_used
            } else {
                0
            };
            if idle >= self.max_idle_time {
                let ghost prev = self@;
                let _e = self.entries.remove(i);
                proof {
                    assert(self@ =~= prev.remove(i as int));
                    assert(!keep(s[i as int]));
                    assert(prev =~= s.take(i as int).push(s[i as int]) + s.skip(i + 1).filter(keep));
                }
            } else {
                assert(keep(s[i as int]));
            }
            assert(self@ =~= s.take(i as int) + s.skip(i as int).filter(keep));
        }
        assert(s.take(0) =~= Seq::<(NetAddr, u64)>::empty());
        assert(s.skip(0) =~= s);
        assert(self@ =~= s.filter(keep));
    }

    /// The number of idle connections to `addr`.
    pub fn idle_count(&self, addr: NetAddr) -> (r: usize)
        ensures
            r == self@.filter(|e: (NetAddr, u64)| e.0 == addr).len(),
    {
        let ghost s = self@;
        let ghost same = |e: (NetAddr, u64)| e.0 == addr;
        let mut n: usize = 0;
        let mut i: usize = 0;
        while i < self.entries.len()
            invariant
                s == self@,
                i <= s.len(),
                same == (|e: (NetAddr, u64)| e.0 == addr),
                n == s.take(i as int).filter(same).len(),
                n <= i,
            decreases s.len() - i,
        {
            proof {
                reveal(Seq::filter);
                assert(s.take(i + 1).drop_last() =~= s.take(i as int));
            }
            assert(entry_view(self.entries@[i as int]) == s[i as int]);
            if self.entries[i].addr == addr {
                n = n + 1;
            }
            i = i + 1;
        }
        assert(s.take(i as int) =~= s);
        n
    }
}

} // verus!
