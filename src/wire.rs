//! Encodings of addresses, flags, optional integers and address lists.
use vstd::prelude::*;
use crate::bytes::{
    le_u16, le_u32, le_u64, lemma_parse_u16, lemma_parse_u32, lemma_parse_u64, parse_u16, parse_u32,
    parse_u64, push_u16, push_u32, push_u64, read_u32, read_u64,
};
use crate::peer::NetAddr;

verus! {

/// The two bytes of a segment, most significant first.
pub open spec fn be_u16(x: u16) -> Seq<u8> {
    seq![(x >> 8u16) as u8, x as u8]
}

/// The segment made of bytes `i` and `i + 1` of `r`, most significant first.
pub open spec fn segment_at(r: Seq<u8>, i: int) -> u16 {
    ((r[i] as u16) << 8u16) | (r[i + 1] as u16)
}

/// An address: the variant tag as a `u32` (0 for IPv4, 1 for IPv6), the
/// address's octets, then the port.
pub open spec fn enc_addr(x: NetAddr) -> Seq<u8> {
    match x {
        NetAddr::V4 { a, b, c, d, port } => le_u32(0) + seq![a, b, c, d] + le_u16(port),
        NetAddr::V6 { s0, s1, s2, s3, s4, s5, s6, s7, port } => le_u32(1) + be_u16(s0) + be_u16(s1)
            + be_u16(s2) + be_u16(s3) + be_u16(s4) + be_u16(s5) + be_u16(s6) + be_u16(s7) + le_u16(
            port,
        ),
    }
}

pub open spec fn parse_addr(s: Seq<u8>) -> Option<(NetAddr, Seq<u8>)> {
    match parse_u32(s) {
        Some((tag, r)) => if tag == 0 && r.len() >= 4 {
            match parse_u16(r.skip(4)) {
                Some((port, rest)) => Some(
                    (NetAddr::V4 { a: r[0], b: r[1], c: r[2], d: r[3], port }, rest),
                ),
                None => None,
            }
        } else if tag == 1 && r.len() >= 16 {
            match parse_u16(r.skip(16)) {
                Some((port, rest)) => Some(
                    (
                        NetAddr::V6 {
                            s0: segment_at(r, 0),
                            s1: segment_at(r, 2),
                            s2: segment_at(r, 4),
                            s3: segment_at(r, 6),
                            s4: segment_at(r, 8),
                            s5: segment_at(r, 10),
                            s6: segment_at(r, 12),
                            s7: segment_at(r, 14),
                            port,
                        },
                        rest,
                    ),
                ),
                None => None,
            }
        } else {
            None
        },
        None => None,
    }
}

proof fn lemma_segment(x: u16)
    ensures
        ((((x >> 8u16) as u8) as u16) << 8u16) | ((x as u8) as u16) == x,
{
    assert(((((x >> 8u16) as u8) as u16) << 8u16) | ((x as u8) as u16) == x) by (bit_vector);
}

pub open spec fn enc_bool(b: bool) -> Seq<u8> {
    if b {
        seq![1u8]
    } else {
        seq![0u8]
    }
}

pub open spec fn parse_bool(s: Seq<u8>) -> Option<(bool, Seq<u8>)> {
    if s.len() < 1 || s[0] > 1 {
        None
    } else {
        Some((s[0] == 1, s.skip(1)))
    }
}

/// An optional integer: tag byte 0 for none, 1 then the value for some.
pub open spec fn enc_opt_u64(o: Option<u64>) -> Seq<u8> {
    match o {
        None => seq![0u8],
        Some(x) => seq![1u8] + le_u64(x),
    }
}

pub open spec fn parse_opt_u64(s: Seq<u8>) -> Option<(Option<u64>, Seq<u8>)> {
    if s.len() < 1 || s[0] > 1 {
        None
    } else if s[0] == 0 {
        Some((None, s.skip(1)))
    } else {
        match parse_u64(s.skip(1)) {
            Some((x, rest)) => Some((Some(x), rest)),
            None => None,
        }
    }
}

/// The addresses one after another, without a count.
pub open spec fn addrs_body(v: Seq<NetAddr>) -> Seq<u8>
    decreases v.len(),
{
    if v.len() == 0 {
        Seq::empty()
    } else {
        enc_addr(v[0]) + addrs_body(v.drop_first())
    }
}

/// A list of addresses: the count as a `u64`, then each address.
pub open spec fn enc_addrs(v: Seq<NetAddr>) -> Seq<u8> {
    le_u64(v.len() as u64) + addrs_body(v)
}

pub open spec fn parse_addrs_n(s: Seq<u8>, n: nat) -> Option<(Seq<NetAddr>, Seq<u8>)>
    decreases n,
{
    if n == 0 {
        Some((Seq::empty(), s))
    } else {
        match parse_addr(s) {
            Some((x, r)) => match parse_addrs_n(r, (n - 1) as nat) {
                Some((xs, rest)) => Some((seq![x] + xs, rest)),
                None => None,
            },
            None => None,
        }
    }
}

pub open spec fn parse_addrs(s: Seq<u8>) -> Option<(Seq<NetAddr>, Seq<u8>)> {
    match parse_u64(s) {
        Some((n, r)) => parse_addrs_n(r, n as nat),
        None => None,
    }
}

/// Reading back what was written gives the value and what followed.
pub proof fn lemma_parse_addr(x: NetAddr, rest: Seq<u8>)
    ensures
        parse_addr(enc_addr(x) + rest) == Some((x, rest)),
{
    match x {
        NetAddr::V4 { a, b, c, d, port } => {
            let r = seq![a, b, c, d] + le_u16(port) + rest;
            assert(enc_addr(x) + rest =~= le_u32(0) + r);
            lemma_parse_u32(0, r);
            assert(r.skip(4) =~= le_u16(port) + rest);
            lemma_parse_u16(port, rest);
        },
        NetAddr::V6 { s0, s1, s2, s3, s4, s5, s6, s7, port } => {
            let body = be_u16(s0) + be_u16(s1) + be_u16(s2) + be_u16(s3) + be_u16(s4) + be_u16(s5)
                + be_u16(s6) + be_u16(s7);
            let r = body + le_u16(port) + rest;
            assert(enc_addr(x) + rest =~= le_u32(1) + r);
            lemma_parse_u32(1, r);
            assert(r.skip(16) =~= le_u16(port) + rest);
            lemma_parse_u16(port, rest);
            lemma_segment(s0);
            lemma_segment(s1);
            lemma_segment(s2);
            lemma_segment(s3);
            lemma_segment(s4);
            lemma_segment(s5);
            lemma_segment(s6);
            lemma_segment(s7);
            assert(segment_at(r, 0) == s0);
            assert(segment_at(r, 2) == s1);
            assert(segment_at(r, 4) == s2);
            assert(segment_at(r, 6) == s3);
            assert(segment_at(r, 8) == s4);
            assert(segment_at(r, 10) == s5);
            assert(segment_at(r, 12) == s6);
            assert(segment_at(r, 14) == s7);
        },
    }
}

/// Reading back what was written gives the value and what followed.
pub proof fn lemma_parse_bool(b: bool, rest: Seq<u8>)
    ensures
        parse_bool(enc_bool(b) + rest) == Some((b, rest)),
{
    assert((enc_bool(b) + rest).skip(1) =~= rest);
}

/// Reading back what was written gives the value and what followed.
pub proof fn lemma_parse_opt_u64(o: Option<u64>, rest: Seq<u8>)
    ensures
        parse_opt_u64(enc_opt_u64(o) + rest) == Some((o, rest)),
{
    let s = enc_opt_u64(o) + rest;
    match o {
        None => {
            assert(s.skip(1) =~= rest);
        },
        Some(x) => {
            assert(s.skip(1) =~= le_u64(x) + rest);
            lemma_parse_u64(x, rest);
        },
    }
}

proof fn lemma_parse_addrs_n(v: Seq<NetAddr>, rest: Seq<u8>)
    ensures
        parse_addrs_n(addrs_body(v) + rest, v.len()) == Some((v, rest)),
    decreases v.len(),
{
    if v.len() > 0 {
        let t = addrs_body(v.drop_first()) + rest;
        assert(addrs_body(v) + rest =~= enc_addr(v[0]) + t);
        lemma_parse_addr(v[0], t);
        lemma_parse_addrs_n(v.drop_first(), rest);
        assert(seq![v[0]] + v.drop_first() =~= v);
    }
}

/// Reading back what was written gives the value and what followed.
pub proof fn lemma_parse_addrs(v: Seq<NetAddr>, rest: Seq<u8>)
    requires
        v.len() <= u64::MAX,
    ensures
        parse_addrs(enc_addrs(v) + rest) == Some((v, rest)),
{
    let t = addrs_body(v) + rest;
    assert(enc_addrs(v) + rest =~= le_u64(v.len() as u64) + t);
    lemma_parse_u64(v.len() as u64, t);
    lemma_parse_addrs_n(v, rest);
}

fn push_be_u16(out: &mut Vec<u8>, x: u16)
    ensures
        final(out)@ == old(out)@ + be_u16(x),
{
    out.push((x >> 8u16) as u8);
    out.push(x as u8);
    assert(final(out)@ =~= old(out)@ + be_u16(x));
}

pub fn push_addr(out: &mut Vec<u8>, x: NetAddr)
    ensures
        final(out)@ == old(out)@ + enc_addr(x),
{
    match x {
        NetAddr::V4 { a, b, c, d, port } => {
            push_u32(out, 0);
            out.push(a);
            out.push(b);
            out.push(c);
            out.push(d);
            push_u16(out, port);
        },
        NetAddr::V6 { s0, s1, s2, s3, s4, s5, s6, s7, port } => {
            push_u32(out, 1);
            push_be_u16(out, s0);
            push_be_u16(out, s1);
            push_be_u16(out, s2);
            push_be_u16(out, s3);
            push_be_u16(out, s4);
            push_be_u16(out, s5);
            push_be_u16(out, s6);
            push_be_u16(out, s7);
            push_u16(out, port);
        },
    }
    assert(final(out)@ =~= old(out)@ + enc_addr(x));
}

pub fn push_bool(out: &mut Vec<u8>, b: bool)
    ensures
        final(out)@ == old(out)@ + enc_bool(b),
{
    out.push(if b {
        1u8
    } else {
        0u8
    });
    assert(final(out)@ =~= old(out)@ + enc_bool(b));
}

pub fn push_opt_u64(out: &mut Vec<u8>, o: Option<u64>)
    ensures
        final(out)@ == old(out)@ + enc_opt_u64(o),
{
    match o {
        None => {
            out.push(0u8);
            assert(final(out)@ =~= old(out)@ + enc_opt_u64(o));
        },
        Some(x) => {
            out.push(1u8);
            push_u64(out, x);
            assert(final(out)@ =~= old(out)@ + enc_opt_u64(o));
        },
    }
}

pub fn push_addrs(out: &mut Vec<u8>, v: &Vec<NetAddr>)
    ensures
        final(out)@ == old(out)@ + enc_addrs(v@),
{
    push_u64(out, v.len() as u64);
    let ghost start = out@;
    let mut i: usize = 0;
    assert(v@.skip(0) =~= v@);
    while i < v.len()
        invariant
            i <= v@.len(),
            start + addrs_body(v@) == out@ + addrs_body(v@.skip(i as int)),
        decreases v@.len() - i,
    {
        proof {
            let t = v@.skip(i as int);
            assert(t.drop_first() =~= v@.skip(i + 1));
            assert(t[0] == v@[i as int]);
        }
        push_addr(out, v[i]);
        i = i + 1;
        assert(start + addrs_body(v@) =~= out@ + addrs_body(v@.skip(i as int)));
    }
    assert(v@.skip(i as int) =~= Seq::<NetAddr>::empty());
    assert(out@ =~= start + addrs_body(v@));
    assert(v@.skip(0) =~= v@);
}

/// `parse_u64` at `pos`, as a position.
pub proof fn lemma_u64_rest(s: Seq<u8>, pos: int)
    requires
        0 <= pos <= s.len(),
        parse_u64(s.skip(pos)) is Some,
    ensures
        parse_u64(s.skip(pos))->Some_0.1 == s.skip(pos + 8),
        pos + 8 <= s.len(),
{
    assert(s.skip(pos).skip(8) =~= s.skip(pos + 8));
}

fn segment(s: &[u8], i: usize) -> (r: u16)
    requires
        i + 1 < s@.len(),
    ensures
        r == segment_at(s@, i as int),
{
    ((s[i] as u16) << 8u16) | (s[i + 1] as u16)
}

pub fn read_addr(s: &[u8], pos: usize) -> (r: Option<(NetAddr, usize)>)
    requires
        pos <= s@.len(),
    ensures
        match parse_addr(s@.skip(pos as int)) {
            Some((x, rest)) => r matches Some((y, p)) && y == x && p <= s@.len() && rest == s@.skip(
                p as int,
            ),
            None => r is None,
        },
{
    let len = s.len();
    match read_u32(s, pos) {
        None => None,
        Some(tag) => {
            let ghost t = s@.skip(pos as int);
            assert(t.len() == len - pos);
            let n: usize = if tag == 0 {
                4
            } else {
                16
            };
            if (tag != 0 && tag != 1) || len - pos < 6 + n {
                proof {
                    if tag == 0 || tag == 1 {
                        if t.len() >= 4 + n {
                            assert(t.skip(4).skip(n as int).len() < 2);
                        } else {
                            assert(t.skip(4).len() < n);
                        }
                    }
                }
                return None;
            }
            let q = pos + 4;
            let port = (s[q + n] as u16) | ((s[q + n + 1] as u16) << 8u16);
            let x = if tag == 0 {
                NetAddr::V4 { a: s[q], b: s[q + 1], c: s[q + 2], d: s[q + 3], port }
            } else {
                NetAddr::V6 {
                    s0: segment(s, q),
                    s1: segment(s, q + 2),
                    s2: segment(s, q + 4),
                    s3: segment(s, q + 6),
                    s4: segment(s, q + 8),
                    s5: segment(s, q + 10),
                    s6: segment(s, q + 12),
                    s7: segment(s, q + 14),
                    port,
                }
            };
            proof {
                let r = t.skip(4);
                assert(r =~= s@.skip(q as int));
                assert(r.skip(n as int) =~= s@.skip(q + n));
                assert(r.skip(n as int).skip(2) =~= s@.skip(q + n + 2));
                if tag == 1 {
                    assert forall|i: int| 0 <= i < 16 implies r[i] == s@[q + i] by {}
                    assert(segment_at(r, 0) == segment_at(s@, q as int));
                    assert(segment_at(r, 2) == segment_at(s@, q + 2));
                    assert(segment_at(r, 4) == segment_at(s@, q + 4));
                    assert(segment_at(r, 6) == segment_at(s@, q + 6));
                    assert(segment_at(r, 8) == segment_at(s@, q + 8));
                    assert(segment_at(r, 10) == segment_at(s@, q + 10));
                    assert(segment_at(r, 12) == segment_at(s@, q + 12));
                    assert(segment_at(r, 14) == segment_at(s@, q + 14));
                }
            }
            Some((x, q + n + 2))
        },
    }
}

pub fn read_bool(s: &[u8], pos: usize) -> (r: Option<(bool, usize)>)
    requires
        pos <= s@.len(),
    ensures
        match parse_bool(s@.skip(pos as int)) {
            Some((x, rest)) => r matches Some((y, p)) && y == x && p <= s@.len() && rest == s@.skip(
                p as int,
            ),
            None => r is None,
        },
{
    if pos >= s.len() || s[pos] > 1 {
        return None;
    }
    assert(s@.skip(pos as int).skip(1) =~= s@.skip(pos + 1));
    Some((s[pos] == 1, pos + 1))
}

pub fn read_opt_u64(s: &[u8], pos: usize) -> (r: Option<(Option<u64>, usize)>)
    requires
        pos <= s@.len(),
    ensures
        match parse_opt_u64(s@.skip(pos as int)) {
            Some((x, rest)) => r matches Some((y, p)) && y == x && p <= s@.len() && rest == s@.skip(
                p as int,
            ),
            None => r is None,
        },
{
    if pos >= s.len() || s[pos] > 1 {
        return None;
    }
    assert(s@.skip(pos as int).skip(1) =~= s@.skip(pos + 1));
    if s[pos] == 0 {
        return Some((None, pos + 1));
    }
    match read_u64(s, pos + 1) {
        None => None,
        Some(x) => {
            proof {
                lemma_u64_rest(s@, pos + 1);
            }
            Some((Some(x), pos + 9))
        },
    }
}

pub fn read_addrs(s: &[u8], pos: usize) -> (r: Option<(Vec<NetAddr>, usize)>)
    requires
        pos <= s@.len(),
    ensures
        match parse_addrs(s@.skip(pos as int)) {
            Some((x, rest)) => r matches Some((y, p)) && y@ == x && p <= s@.len() && rest
                == s@.skip(p as int),
            None => r is None,
        },
{
    let n = match read_u64(s, pos) {
        None => {
            return None;
        },
        Some(n) => n,
    };
    let len = s.len();
    proof {
        lemma_u64_rest(s@, pos as int);
    }
    let mut p: usize = pos + 8;
    let mut out: Vec<NetAddr> = Vec::new();
    let mut i: u64 = 0;
    while i < n
        invariant
            pos + 8 <= p <= s@.len(),
            i <= n,
            parse_addrs(s@.skip(pos as int)) == match parse_addrs_n(
                s@.skip(p as int),
                (n - i) as nat,
            ) {
                Some((xs, rest)) => Some((out@ + xs, rest)),
                None => None::<(Seq<NetAddr>, Seq<u8>)>,
            },
        decreases n - i,
    {
        match read_addr(s, p) {
            None => {
                return None;
            },
            Some((x, q)) => {
                let ghost before = out@;
                out.push(x);
                proof {
                    let m = parse_addrs_n(s@.skip(q as int), (n - i - 1) as nat);
                    if let Some((xs, rest)) = m {
                        assert(before + (seq![x] + xs) =~= out@ + xs);
                    }
                }
                p = q;
                i = i + 1;
            },
        }
    }
    assert(out@ + Seq::<NetAddr>::empty() =~= out@);
    Some((out, p))
}

} // verus!
