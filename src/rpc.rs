//! Protocol messages, their encoding, and length-prefixed frames.
use vstd::prelude::*;
use crate::bytes::{
    copy_range, enc_bytes, le_u32, le_u64, lemma_parse_bytes, lemma_parse_u32, lemma_parse_u64,
    parse_bytes, parse_u32, parse_u64, push_all, push_bytes, push_u32, push_u64, read_bytes,
    read_u32, read_u64,
};
use crate::node_id::{ID_LEN, NodeId};
use crate::peer::{PeerInfo, PeerView};
use crate::wire::{enc_addr, lemma_parse_addr, lemma_u64_rest, parse_addr, push_addr, read_addr};

verus! {

/// A request or a reply between nodes.
#[derive(Clone, Debug, PartialEq, Eq)]
pub enum DhtRpc {
    /// Is the node alive?
    Ping,
    /// The reply to `Ping`, and the acknowledgement of `Store`.
    Pong,
    /// Which peers are closest to this id?
    FindNode(NodeId),
    /// The closest peers known.
    FindNodeResponse(Vec<PeerInfo>),
    /// What is stored under this key?
    FindValue(Vec<u8>),
    /// The stored bytes, if any.
    FindValueResponse(Option<Vec<u8>>),
    /// Keep this value under this key.
    Store(Vec<u8>, Vec<u8>),
}

pub enum RpcView {
    Ping,
    Pong,
    FindNode(Seq<u8>),
    FindNodeResponse(Seq<PeerView>),
    FindValue(Seq<u8>),
    FindValueResponse(Option<Seq<u8>>),
    Store(Seq<u8>, Seq<u8>),
}

impl View for DhtRpc {
    type V = RpcView;

    open spec fn view(&self) -> RpcView {
        match self {
            DhtRpc::Ping => RpcView::Ping,
            DhtRpc::Pong => RpcView::Pong,
            DhtRpc::FindNode(id) => RpcView::FindNode(id@),
            DhtRpc::FindNodeResponse(ps) => RpcView::FindNodeResponse(
                ps@.map_values(|p: PeerInfo| p@),
            ),
            DhtRpc::FindValue(k) => RpcView::FindValue(k@),
            DhtRpc::FindValueResponse(o) => RpcView::FindValueResponse(
                match o {
                    Some(v) => Some(v@),
                    None => None,
                },
            ),
            DhtRpc::Store(k, v) => RpcView::Store(k@, v@),
        }
    }
}

/// A peer record: the 20 id bytes, the address, the time last seen.
pub open spec fn enc_peer(p: PeerView) -> Seq<u8> {
    p.id + enc_addr(p.addr) + le_u64(p.last_seen)
}

pub open spec fn parse_peer(s: Seq<u8>) -> Option<(PeerView, Seq<u8>)> {
    if s.len() < ID_LEN {
        None
    } else {
        match parse_addr(s.skip(ID_LEN as int)) {
            Some((addr, r)) => match parse_u64(r) {
                Some((last_seen, rest)) => Some(
                    (PeerView { id: s.take(ID_LEN as int), addr, last_seen }, rest),
                ),
                None => None,
            },
            None => None,
        }
    }
}

pub open spec fn peers_body(v: Seq<PeerView>) -> Seq<u8>
    decreases v.len(),
{
    if v.len() == 0 {
        Seq::empty()
    } else {
        enc_peer(v[0]) + peers_body(v.drop_first())
    }
}

pub open spec fn parse_peers_n(s: Seq<u8>, n: nat) -> Option<(Seq<PeerView>, Seq<u8>)>
    decreases n,
{
    if n == 0 {
        Some((Seq::empty(), s))
    } else {
        match parse_peer(s) {
            Some((x, r)) => match parse_peers_n(r, (n - 1) as nat) {
                Some((xs, rest)) => Some((seq![x] + xs, rest)),
                None => None,
            },
            None => None,
        }
    }
}

/// The encoding of a message: the variant's index as a `u32`, then its fields.
pub open spec fn encode_rpc(m: RpcView) -> Seq<u8> {
    match m {
        RpcView::Ping => le_u32(0),
        RpcView::Pong => le_u32(1),
        RpcView::FindNode(id) => le_u32(2) + id,
        RpcView::FindNodeResponse(ps) => le_u32(3) + le_u64(ps.len() as u64) + peers_body(ps),
        RpcView::FindValue(k) => le_u32(4) + enc_bytes(k),
        RpcView::FindValueResponse(o) => le_u32(5) + match o {
            None => seq![0u8],
            Some(v) => seq![1u8] + enc_bytes(v),
        },
        RpcView::Store(k, v) => le_u32(6) + enc_bytes(k) + enc_bytes(v),
    }
}

/// Reads a message off the front of `s`; bytes after it are ignored.
pub open spec fn decode_rpc(s: Seq<u8>) -> Option<RpcView> {
    match parse_u32(s) {
        None => None,
        Some((tag, r)) => decode_body(tag, r),
    }
}

/// The fields of the variant with index `tag`, read off the front of `r`.
pub open spec fn decode_body(tag: u32, r: Seq<u8>) -> Option<RpcView> {
    if tag == 0 {
            Some(RpcView::Ping)
        } else if tag == 1 {
            Some(RpcView::Pong)
        } else if tag == 2 {
            if r.len() < ID_LEN {
                None
            } else {
                Some(RpcView::FindNode(r.take(ID_LEN as int)))
            }
        } else if tag == 3 {
            match parse_u64(r) {
                None => None,
                Some((n, r2)) => match parse_peers_n(r2, n as nat) {
                    None => None,
                    Some((ps, _)) => Some(RpcView::FindNodeResponse(ps)),
                },
            }
        } else if tag == 4 {
            match parse_bytes(r) {
                None => None,
                Some((k, _)) => Some(RpcView::FindValue(k)),
            }
        } else if tag == 5 {
            if r.len() < 1 || r[0] > 1 {
                None
            } else if r[0] == 0 {
                Some(RpcView::FindValueResponse(None))
            } else {
                match parse_bytes(r.skip(1)) {
                    None => None,
                    Some((v, _)) => Some(RpcView::FindValueResponse(Some(v))),
                }
            }
        } else if tag == 6 {
            match parse_bytes(r) {
                None => None,
                Some((k, r2)) => match parse_bytes(r2) {
                    None => None,
                    Some((v, _)) => Some(RpcView::Store(k, v)),
                },
            }
        } else {
            None
        }
}

/// A message can be encoded when its ids have 20 bytes and its lengths fit
/// the `u64` counts.
pub open spec fn rpc_encodable(m: RpcView) -> bool {
    match m {
        RpcView::FindNode(id) => id.len() == ID_LEN,
        RpcView::FindNodeResponse(ps) => ps.len() <= u64::MAX && forall|i: int|
            0 <= i < ps.len() ==> (#[trigger] ps[i]).id.len() == ID_LEN,
        RpcView::FindValue(k) => k.len() <= u64::MAX,
        RpcView::FindValueResponse(o) => match o {
            Some(v) => v.len() <= u64::MAX,
            None => true,
        },
        RpcView::Store(k, v) => k.len() <= u64::MAX && v.len() <= u64::MAX,
        _ => true,
    }
}

pub open spec fn be_u32(x: u32) -> Seq<u8> {
    seq![(x >> 24u32) as u8, (x >> 16u32) as u8, (x >> 8u32) as u8, x as u8]
}

pub open spec fn from_be_u32(s: Seq<u8>) -> u32 {
    ((s[0] as u32) << 24u32) | ((s[1] as u32) << 16u32) | ((s[2] as u32) << 8u32) | (s[3] as u32)
}

/// A frame: the message's length as a big-endian `u32`, then the message.
pub open spec fn frame(m: RpcView) -> Seq<u8> {
    be_u32(encode_rpc(m).len() as u32) + encode_rpc(m)
}

/// The message in the frame at the front of `s`.
pub open spec fn parse_frame(s: Seq<u8>) -> Option<RpcView> {
    if s.len() < 4 {
        None
    } else {
        let n = from_be_u32(s) as int;
        if s.len() - 4 < n {
            None
        } else {
            decode_rpc(s.subrange(4, 4 + n))
        }
    }
}

proof fn lemma_parse_peer(p: PeerView, rest: Seq<u8>)
    requires
        p.id.len() == ID_LEN,
    ensures
        parse_peer(enc_peer(p) + rest) == Some((p, rest)),
{
    let s = enc_peer(p) + rest;
    let t = le_u64(p.last_seen) + rest;
    assert(s.skip(ID_LEN as int) =~= enc_addr(p.addr) + t);
    assert(s.take(ID_LEN as int) =~= p.id);
    lemma_parse_addr(p.addr, t);
    lemma_parse_u64(p.last_seen, rest);
}

proof fn lemma_parse_peers_n(v: Seq<PeerView>, rest: Seq<u8>)
    requires
        forall|i: int| 0 <= i < v.len() ==> (#[trigger] v[i]).id.len() == ID_LEN,
    ensures
        parse_peers_n(peers_body(v) + rest, v.len()) == Some((v, rest)),
    decreases v.len(),
{
    if v.len() > 0 {
        let d = v.drop_first();
        let t = peers_body(d) + rest;
        assert(peers_body(v) + rest =~= enc_peer(v[0]) + t);
        lemma_parse_peer(v[0], t);
        assert forall|i: int| 0 <= i < d.len() implies (#[trigger] d[i]).id.len() == ID_LEN by {
            assert(d[i] == v[i + 1]);
        }
        lemma_parse_peers_n(d, rest);
        assert(seq![v[0]] + d =~= v);
    }
}

proof fn lemma_body_find_node(id: Seq<u8>, rest: Seq<u8>)
    requires
        id.len() == ID_LEN,
    ensures
        decode_body(2, id + rest) == Some(RpcView::FindNode(id)),
{
    assert((id + rest).take(ID_LEN as int) =~= id);
}

proof fn lemma_body_find_node_response(ps: Seq<PeerView>, rest: Seq<u8>)
    requires
        ps.len() <= u64::MAX,
        forall|i: int| 0 <= i < ps.len() ==> (#[trigger] ps[i]).id.len() == ID_LEN,
    ensures
        decode_body(3, le_u64(ps.len() as u64) + peers_body(ps) + rest) == Some(
            RpcView::FindNodeResponse(ps),
        ),
{
    let t = peers_body(ps) + rest;
    assert(le_u64(ps.len() as u64) + peers_body(ps) + rest =~= le_u64(ps.len() as u64) + t);
    lemma_parse_u64(ps.len() as u64, t);
    lemma_parse_peers_n(ps, rest);
}

proof fn lemma_body_find_value(k: Seq<u8>, rest: Seq<u8>)
    requires
        k.len() <= u64::MAX,
    ensures
        decode_body(4, enc_bytes(k) + rest) == Some(RpcView::FindValue(k)),
{
    lemma_parse_bytes(k, rest);
}

proof fn lemma_body_find_value_response(o: Option<Seq<u8>>, rest: Seq<u8>)
    requires
        o matches Some(v) ==> v.len() <= u64::MAX,
    ensures
        decode_body(
            5,
            match o {
                None => seq![0u8],
                Some(v) => seq![1u8] + enc_bytes(v),
            } + rest,
        ) == Some(RpcView::FindValueResponse(o)),
{
    match o {
        None => {},
        Some(v) => {
            let t = seq![1u8] + enc_bytes(v) + rest;
            assert(t.skip(1) =~= enc_bytes(v) + rest);
            lemma_parse_bytes(v, rest);
        },
    }
}

proof fn lemma_body_store(k: Seq<u8>, v: Seq<u8>, rest: Seq<u8>)
    requires
        k.len() <= u64::MAX,
        v.len() <= u64::MAX,
    ensures
        decode_body(6, enc_bytes(k) + enc_bytes(v) + rest) == Some(RpcView::Store(k, v)),
{
    let t = enc_bytes(v) + rest;
    assert(enc_bytes(k) + enc_bytes(v) + rest =~= enc_bytes(k) + t);
    lemma_parse_bytes(k, t);
    lemma_parse_bytes(v, rest);
}

proof fn lemma_body_round_trip(m: RpcView, rest: Seq<u8>)
    requires
        rpc_encodable(m),
    ensures
        decode_body(tag_of(m), encode_rpc(m).skip(4) + rest) == Some(m),
{
    let e = encode_rpc(m);
    match m {
        RpcView::Ping => {},
        RpcView::Pong => {},
        RpcView::FindNode(id) => {
            assert(e.skip(4) =~= id);
            lemma_body_find_node(id, rest);
        },
        RpcView::FindNodeResponse(ps) => {
            assert(e.skip(4) =~= le_u64(ps.len() as u64) + peers_body(ps));
            lemma_body_find_node_response(ps, rest);
        },
        RpcView::FindValue(k) => {
            assert(e.skip(4) =~= enc_bytes(k));
            lemma_body_find_value(k, rest);
        },
        RpcView::FindValueResponse(o) => {
            assert(e.skip(4) =~= match o {
                None => seq![0u8],
                Some(v) => seq![1u8] + enc_bytes(v),
            });
            lemma_body_find_value_response(o, rest);
        },
        RpcView::Store(k, v) => {
            assert(e.skip(4) =~= enc_bytes(k) + enc_bytes(v));
            lemma_body_store(k, v, rest);
        },
    }
}

/// The variant index of a message.
pub open spec fn tag_of(m: RpcView) -> u32 {
    match m {
        RpcView::Ping => 0,
        RpcView::Pong => 1,
        RpcView::FindNode(_) => 2,
        RpcView::FindNodeResponse(_) => 3,
        RpcView::FindValue(_) => 4,
        RpcView::FindValueResponse(_) => 5,
        RpcView::Store(_, _) => 6,
    }
}

/// Decoding the encoding of a message, followed by anything, gives it back.
pub proof fn lemma_rpc_round_trip(m: RpcView, rest: Seq<u8>)
    requires
        rpc_encodable(m),
    ensures
        decode_rpc(encode_rpc(m) + rest) == Some(m),
{
    let e = encode_rpc(m);
    assert(e =~= le_u32(tag_of(m)) + e.skip(4));
    assert(e + rest =~= le_u32(tag_of(m)) + (e.skip(4) + rest));
    lemma_parse_u32(tag_of(m), e.skip(4) + rest);
    lemma_body_round_trip(m, rest);
}

proof fn lemma_be_u32(x: u32)
    ensures
        from_be_u32(be_u32(x)) == x,
{
    assert(((((x >> 24u32) as u8) as u32) << 24u32) | ((((x >> 16u32) as u8) as u32) << 16u32) | ((
    ((x >> 8u32) as u8) as u32) << 8u32) | ((x as u8) as u32) == x) by (bit_vector);
}

/// Parsing the frame of a message gives the message back.
pub proof fn lemma_frame_round_trip(m: RpcView)
    requires
        rpc_encodable(m),
        encode_rpc(m).len() <= u32::MAX,
    ensures
        parse_frame(frame(m)) == Some(m),
{
    let e = encode_rpc(m);
    lemma_be_u32(e.len() as u32);
    assert(frame(m).subrange(4, 4 + e.len() as int) =~= e + Seq::<u8>::empty());
    lemma_rpc_round_trip(m, Seq::<u8>::empty());
}

fn push_peer(out: &mut Vec<u8>, p: &PeerInfo)
    ensures
        final(out)@ == old(out)@ + enc_peer(p@),
{
    push_all(out, p.id.bytes.as_slice());
    push_addr(out, p.addr);
    push_u64(out, p.last_seen);
    assert(final(out)@ =~= old(out)@ + enc_peer(p@));
}

fn push_peers(out: &mut Vec<u8>, v: &Vec<PeerInfo>)
    ensures
        final(out)@ == old(out)@ + le_u64(v@.len() as u64) + peers_body(
            v@.map_values(|p: PeerInfo| p@),
        ),
{
    let ghost vs = v@.map_values(|p: PeerInfo| p@);
    push_u64(out, v.len() as u64);
    let ghost start = out@;
    let mut i: usize = 0;
    assert(vs.skip(0) =~= vs);
    while i < v.len()
        invariant
            i <= v@.len(),
            vs == v@.map_values(|p: PeerInfo| p@),
            start + peers_body(vs) == out@ + peers_body(vs.skip(i as int)),
        decreases v@.len() - i,
    {
        proof {
            let t = vs.skip(i as int);
            assert(t.drop_first() =~= vs.skip(i + 1));
            assert(t[0] == v@[i as int]@);
        }
        push_peer(out, &v[i]);
        i = i + 1;
        assert(start + peers_body(vs) =~= out@ + peers_body(vs.skip(i as int)));
    }
    assert(vs.skip(i as int) =~= Seq::<PeerView>::empty());
    assert(out@ =~= start + peers_body(vs));
}

/// The bytes of a message.
pub fn encode_message(m: &DhtRpc) -> (r: Vec<u8>)
    ensures
        r@ == encode_rpc(m@),
{
    let mut out: Vec<u8> = Vec::new();
    match m {
        DhtRpc::Ping => {
            push_u32(&mut out, 0);
        },
        DhtRpc::Pong => {
            push_u32(&mut out, 1);
        },
        DhtRpc::FindNode(id) => {
            push_u32(&mut out, 2);
            push_all(&mut out, id.bytes.as_slice());
        },
        DhtRpc::FindNodeResponse(ps) => {
            push_u32(&mut out, 3);
            push_peers(&mut out, ps);
        },
        DhtRpc::FindValue(k) => {
            push_u32(&mut out, 4);
            push_bytes(&mut out, k.as_slice());
        },
        DhtRpc::FindValueResponse(o) => {
            push_u32(&mut out, 5);
            match o {
                None => {
                    out.push(0u8);
                },
                Some(v) => {
                    out.push(1u8);
                    push_bytes(&mut out, v.as_slice());
                },
            }
        },
        DhtRpc::Store(k, v) => {
            push_u32(&mut out, 6);
            push_bytes(&mut out, k.as_slice());
            push_bytes(&mut out, v.as_slice());
        },
    }
    assert(out@ =~= encode_rpc(m@));
    out
}

fn read_peer(s: &[u8], pos: usize) -> (r: Option<(PeerInfo, usize)>)
    requires
        pos <= s@.len(),
    ensures
        match parse_peer(s@.skip(pos as int)) {
            Some((x, rest)) => r matches Some((y, p)) && y@ == x && p <= s@.len() && rest
                == s@.skip(p as int),
            None => r is None,
        },
{
    let len = s.len();
    if len - pos < ID_LEN {
        return None;
    }
    let ghost t = s@.skip(pos as int);
    let id = NodeId { bytes: copy_range(s, pos, pos + ID_LEN) };
    assert(t.take(ID_LEN as int) =~= id@);
    assert(t.skip(ID_LEN as int) =~= s@.skip(pos + ID_LEN));
    match read_addr(s, pos + ID_LEN) {
        None => None,
        Some((addr, q)) => {
            match read_u64(s, q) {
                None => None,
                Some(last_seen) => {
                    proof {
                        lemma_u64_rest(s@, q as int);
                    }
                    Some((PeerInfo { id, addr, last_seen }, q + 8))
                },
            }
        },
    }
}

fn read_peers(s: &[u8], pos: usize, n: u64) -> (r: Option<Vec<PeerInfo>>)
    requires
        pos <= s@.len(),
    ensures
        match parse_peers_n(s@.skip(pos as int), n as nat) {
            Some((x, _)) => r matches Some(y) && y@.map_values(|p: PeerInfo| p@) == x,
            None => r is None,
        },
{
    let mut p: usize = pos;
    let mut out: Vec<PeerInfo> = Vec::new();
    let mut i: u64 = 0;
    while i < n
        invariant
            pos <= p <= s@.len(),
            i <= n,
            parse_peers_n(s@.skip(pos as int), n as nat) == match parse_peers_n(
                s@.skip(p as int),
                (n - i) as nat,
            ) {
                Some((xs, rest)) => Some((out@.map_values(|q: PeerInfo| q@) + xs, rest)),
                None => None::<(Seq<PeerView>, Seq<u8>)>,
            },
        decreases n - i,
    {
        match read_peer(s, p) {
            None => {
                return None;
            },
            Some((x, q)) => {
                let ghost before = out@.map_values(|q: PeerInfo| q@);
                let ghost xv = x@;
                out.push(x);
                proof {
                    assert(out@.map_values(|q: PeerInfo| q@) =~= before.push(xv));
                    let m = parse_peers_n(s@.skip(q as int), (n - i - 1) as nat);
                    if let Some((xs, rest)) = m {
                        assert(before + (seq![xv] + xs) =~= before.push(xv) + xs);
                    }
                }
                p = q;
                i = i + 1;
            },
        }
    }
    assert(out@.map_values(|q: PeerInfo| q@) + Seq::<PeerView>::empty() =~= out@.map_values(
        |q: PeerInfo| q@,
    ));
    Some(out)
}

/// The message that `s` begins with, if it begins with one.
pub fn decode_message(s: &[u8]) -> (r: Option<DhtRpc>)
    ensures
        match decode_rpc(s@) {
            Some(m) => r matches Some(x) && x@ == m,
            None => r is None,
        },
{
    let tag = match read_u32(s, 0) {
        None => {
            return None;
        },
        Some(t) => t,
    };
    assert(s@.skip(0) =~= s@);
    assert(s@.skip(4) =~= s@.skip(0).skip(4));
    let len = s.len();
    if tag == 0 {
        Some(DhtRpc::Ping)
    } else if tag == 1 {
        Some(DhtRpc::Pong)
    } else if tag == 2 {
        if len - 4 < ID_LEN {
            return None;
        }
        let id = NodeId { bytes: copy_range(s, 4, 4 + ID_LEN) };
        assert(s@.skip(4).take(ID_LEN as int) =~= id@);
        Some(DhtRpc::FindNode(id))
    } else if tag == 3 {
        match read_u64(s, 4) {
            None => None,
            Some(n) => {
                proof {
                    lemma_u64_rest(s@, 4);
                }
                match read_peers(s, 12, n) {
                    None => None,
                    Some(ps) => Some(DhtRpc::FindNodeResponse(ps)),
                }
            },
        }
    } else if tag == 4 {
        match read_bytes(s, 4) {
            None => None,
            Some((k, _)) => Some(DhtRpc::FindValue(k)),
        }
    } else if tag == 5 {
        if len < 5 || s[4] > 1 {
            return None;
        }
        if s[4] == 0 {
            return Some(DhtRpc::FindValueResponse(None));
        }
        assert(s@.skip(4).skip(1) =~= s@.skip(5));
        match read_bytes(s, 5) {
            None => None,
            Some((v, _)) => Some(DhtRpc::FindValueResponse(Some(v))),
        }
    } else if tag == 6 {
        match read_bytes(s, 4) {
            None => None,
            Some((k, p)) => match read_bytes(s, p) {
                None => None,
                Some((v, _)) => Some(DhtRpc::Store(k, v)),
            },
        }
    } else {
        None
    }
}

/// The frame of a message, if its length fits the `u32` prefix.
pub fn encode_frame(m: &DhtRpc) -> (r: Option<Vec<u8>>)
    ensures
        encode_rpc(m@).len() <= u32::MAX ==> (r matches Some(f) && f@ == frame(m@)),
        encode_rpc(m@).len() > u32::MAX ==> r is None,
{
    let body = encode_message(m);
    if body.len() > u32::MAX as usize {
        return None;
    }
    let n = body.len() as u32;
    let mut out: Vec<u8> = Vec::new();
    out.push((n >> 24u32) as u8);
    out.push((n >> 16u32) as u8);
    out.push((n >> 8u32) as u8);
    out.push(n as u8);
    push_all(&mut out, body.as_slice());
    assert(out@ =~= frame(m@));
    Some(out)
}

/// The length that a frame's 4-byte header announces.
pub fn frame_len(header: &[u8]) -> (r: Option<u32>)
    ensures
        header@.len() >= 4 ==> r == Some(from_be_u32(header@)),
        header@.len() < 4 ==> r is None,
{
    if header.len() < 4 {
        return None;
    }
    Some(((header[0] as u32) << 24u32) | ((header[1] as u32) << 16u32) | ((header[2] as u32) << 8u32)
        | (header[3] as u32))
}

/// The message in the frame that `s` begins with.
pub fn parse_frame_bytes(s: &[u8]) -> (r: Option<DhtRpc>)
    ensures
        match parse_frame(s@) {
            Some(m) => r matches Some(x) && x@ == m,
            None => r is None,
        },
{
    let n = match frame_len(s) {
        None => {
            return None;
        },
        Some(n) => n,
    };
    if s.len() - 4 < n as usize {
        return None;
    }
    let body = copy_range(s, 4, 4 + n as usize);
    decode_message(body.as_slice())
}

} // verus!
