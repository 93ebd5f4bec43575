//! Network addresses and what a node knows of a peer.
use vstd::prelude::*;
use crate::node_id::NodeId;
use crate::helpers::now;

verus! {

/// A socket address: an IPv4 address as four octets, or an IPv6 address as
/// eight 16-bit segments, most significant first; and a port.
#[derive(Clone, Copy, Debug, PartialEq, Eq, Hash, Structural)]
pub enum NetAddr {
    V4 { a: u8, b: u8, c: u8, d: u8, port: u16 },
    V6 { s0: u16, s1: u16, s2: u16, s3: u16, s4: u16, s5: u16, s6: u16, s7: u16, port: u16 },
}

impl NetAddr {
    /// The IPv4 address `a.b.c.d` at `port`.
    pub fn new(a: u8, b: u8, c: u8, d: u8, port: u16) -> (r: NetAddr)
        ensures
            r == (NetAddr::V4 { a, b, c, d, port }),
    {
        NetAddr::V4 { a, b, c, d, port }
    }

    /// The IPv6 address with segments `s` at `port`.
    pub fn new_v6(s: [u16; 8], port: u16) -> (r: NetAddr)
        ensures
            r == (NetAddr::V6 {
                s0: s@[0],
                s1: s@[1],
                s2: s@[2],
                s3: s@[3],
                s4: s@[4],
                s5: s@[5],
                s6: s@[6],
                s7: s@[7],
                port,
            }),
    {
        NetAddr::V6 {
            s0: s[0],
            s1: s[1],
            s2: s[2],
            s3: s[3],
            s4: s[4],
            s5: s[5],
            s6: s[6],
            s7: s[7],
            port,
        }
    }

    pub open spec fn localhost_spec(port: u16) -> NetAddr {
        NetAddr::V4 { a: 127, b: 0, c: 0, d: 1, port }
    }

    /// `127.0.0.1` at the given port.
    pub fn localhost(port: u16) -> (r: NetAddr)
        ensures
            r == NetAddr::localhost_spec(port),
    {
        NetAddr::V4 { a: 127, b: 0, c: 0, d: 1, port }
    }
}

/// What is known of a peer: its identifier, where it listens, and when it was
/// last heard from (unix seconds). Two records are the same peer when their
/// identifiers are equal.
#[derive(Clone, Debug, PartialEq, Eq)]
pub struct PeerInfo {
    pub id: NodeId,
    pub addr: NetAddr,
    pub last_seen: u64,
}

pub struct PeerView {
    pub id: Seq<u8>,
    pub addr: NetAddr,
    pub last_seen: u64,
}

impl View for PeerInfo {
    type V = PeerView;

    open spec fn view(&self) -> PeerView {
        PeerView { id: self.id@, addr: self.addr, last_seen: self.last_seen }
    }
}

impl PeerInfo {
    pub open spec fn wf(&self) -> bool {
        self.id.wf()
    }

    /// A peer first seen now.
    pub fn new(id: NodeId, addr: NetAddr) -> (r: PeerInfo)
        ensures
            r.id == id,
            r.addr == addr,
    {
        PeerInfo { id, addr, last_seen: now() }
    }

    /// A copy of this record.
    pub fn copy(&self) -> (r: PeerInfo)
        ensures
            r@ == self@,
    {
        PeerInfo { id: self.id.copy(), addr: self.addr, last_seen: self.last_seen }
    }
}

/// Copies a sequence of peer records.
pub fn copy_peers(v: &Vec<PeerInfo>) -> (r: Vec<PeerInfo>)
    ensures
        r@.len() == v@.len(),
        forall|i: int| 0 <= i < v@.len() ==> #[trigger] r@[i]@ == v@[i]@,
{
    let mut r: Vec<PeerInfo> = Vec::new();
    let mut i: usize = 0;
    while i < v.len()
        invariant
            i <= v@.len(),
            r@.len() == i,
            forall|j: int| 0 <= j < i ==> #[trigger] r@[j]@ == v@[j]@,
        decreases v@.len() - i,
    {
        r.push(v[i].copy());
        i = i + 1;
    }
    r
}

} // verus!
