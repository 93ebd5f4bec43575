//! Fixed-width little-endian integers and length-prefixed byte strings, the
//! building blocks of the wire format.
use vstd::prelude::*;

verus! {

pub open spec fn le_u16(x: u16) -> Seq<u8> {
    seq![x as u8, (x >> 8u16) as u8]
}

pub open spec fn le_u32(x: u32) -> Seq<u8> {
    seq![x as u8, (x >> 8u32) as u8, (x >> 16u32) as u8, (x >> 24u32) as u8]
}

pub open spec fn le_u64(x: u64) -> Seq<u8> {
    seq![
        x as u8,
        (x >> 8u64) as u8,
        (x >> 16u64) as u8,
        (x >> 24u64) as u8,
        (x >> 32u64) as u8,
        (x >> 40u64) as u8,
        (x >> 48u64) as u8,
        (x >> 56u64) as u8,
    ]
}

pub open spec fn from_le_u16(s: Seq<u8>) -> u16 {
    (s[0] as u16) | ((s[1] as u16) << 8u16)
}

pub open spec fn from_le_u32(s: Seq<u8>) -> u32 {
    (s[0] as u32) | ((s[1] as u32) << 8u32) | ((s[2] as u32) << 16u32) | ((s[3] as u32) << 24u32)
}

pub open spec fn from_le_u64(s: Seq<u8>) -> u64 {
    (s[0] as u64) | ((s[1] as u64) << 8u64) | ((s[2] as u64) << 16u64) | ((s[3] as u64)
        << 24u64) | ((s[4] as u64) << 32u64) | ((s[5] as u64) << 40u64) | ((s[6] as u64)
        << 48u64) | ((s[7] as u64) << 56u64)
}

/// Reads a little-endian `u16` off the front of `s`, returning the rest.
pub open spec fn parse_u16(s: Seq<u8>) -> Option<(u16, Seq<u8>)> {
    if s.len() < 2 {
        None
    } else {
        Some((from_le_u16(s), s.skip(2)))
    }
}

pub open spec fn parse_u32(s: Seq<u8>) -> Option<(u32, Seq<u8>)> {
    if s.len() < 4 {
        None
    } else {
        Some((from_le_u32(s), s.skip(4)))
    }
}

pub open spec fn parse_u64(s: Seq<u8>) -> Option<(u64, Seq<u8>)> {
    if s.len() < 8 {
        None
    } else {
        Some((from_le_u64(s), s.skip(8)))
    }
}

/// A byte string on the wire: its length as a `u64`, then its bytes.
pub open spec fn enc_bytes(s: Seq<u8>) -> Seq<u8> {
    le_u64(s.len() as u64) + s
}

pub open spec fn parse_bytes(s: Seq<u8>) -> Option<(Seq<u8>, Seq<u8>)> {
    match parse_u64(s) {
        Some((n, rest)) => if n <= rest.len() {
            Some((rest.take(n as int), rest.skip(n as int)))
        } else {
            None
        },
        None => None,
    }
}

proof fn lemma_u16_bits(x: u16)
    ensures
        ((x as u8) as u16) | ((((x >> 8u16) as u8) as u16) << 8u16) == x,
{
    assert(((x as u8) as u16) == x & 0xff) by (bit_vector);
    assert((((x >> 8u16) as u8) as u16) == (x >> 8u16) & 0xff) by (bit_vector);
    assert((x & 0xff) | (((x >> 8u16) & 0xff) << 8u16) == x) by (bit_vector);
}

proof fn lemma_u32_bits(x: u32)
    ensures
        ((x as u8) as u32) | ((((x >> 8u32) as u8) as u32) << 8u32) | ((((x >> 16u32) as u8) as u32)
            << 16u32) | ((((x >> 24u32) as u8) as u32) << 24u32) == x,
{
    assert(((x as u8) as u32) == x & 0xff) by (bit_vector);
    assert((((x >> 8u32) as u8) as u32) == (x >> 8u32) & 0xff) by (bit_vector);
    assert((((x >> 16u32) as u8) as u32) == (x >> 16u32) & 0xff) by (bit_vector);
    assert((((x >> 24u32) as u8) as u32) == (x >> 24u32) & 0xff) by (bit_vector);
    assert((x & 0xff) | (((x >> 8u32) & 0xff) << 8u32) | (((x >> 16u32) & 0xff) << 16u32) | (((x
        >> 24u32) & 0xff) << 24u32) == x) by (bit_vector);
}

proof fn lemma_u64_bits(x: u64)
    ensures
        ((x as u8) as u64) | ((((x >> 8u64) as u8) as u64) << 8u64) | ((((x >> 16u64) as u8) as u64)
            << 16u64) | ((((x >> 24u64) as u8) as u64) << 24u64) | ((((x >> 32u64) as u8) as u64)
            << 32u64) | ((((x >> 40u64) as u8) as u64) << 40u64) | ((((x >> 48u64) as u8) as u64)
            << 48u64) | ((((x >> 56u64) as u8) as u64) << 56u64) == x,
{
    assert(((x as u8) as u64) == x & 0xff) by (bit_vector);
    assert((((x >> 8u64) as u8) as u64) == (x >> 8u64) & 0xff) by (bit_vector);
    assert((((x >> 16u64) as u8) as u64) == (x >> 16u64) & 0xff) by (bit_vector);
    assert((((x >> 24u64) as u8) as u64) == (x >> 24u64) & 0xff) by (bit_vector);
    assert((((x >> 32u64) as u8) as u64) == (x >> 32u64) & 0xff) by (bit_vector);
    assert((((x >> 40u64) as u8) as u64) == (x >> 40u64) & 0xff) by (bit_vector);
    assert((((x >> 48u64) as u8) as u64) == (x >> 48u64) & 0xff) by (bit_vector);
    assert((((x >> 56u64) as u8) as u64) == (x >> 56u64) & 0xff) by (bit_vector);
    assert((x & 0xff) | (((x >> 8u64) & 0xff) << 8u64) | (((x >> 16u64) & 0xff) << 16u64) | (((x
        >> 24u64) & 0xff) << 24u64) | (((x >> 32u64) & 0xff) << 32u64) | (((x >> 40u64) & 0xff)
        << 40u64) | (((x >> 48u64) & 0xff) << 48u64) | (((x >> 56u64) & 0xff) << 56u64) == x)
        by (bit_vector);
}

/// Reading back what was written gives the value and what followed.
pub proof fn lemma_parse_u16(x: u16, rest: Seq<u8>)
    ensures
        parse_u16(le_u16(x) + rest) == Some((x, rest)),
{
    lemma_u16_bits(x);
    assert((le_u16(x) + rest).skip(2) =~= rest);
}

/// Reading back what was written gives the value and what followed.
pub proof fn lemma_parse_u32(x: u32, rest: Seq<u8>)
    ensures
        parse_u32(le_u32(x) + rest) == Some((x, rest)),
{
    lemma_u32_bits(x);
    assert((le_u32(x) + rest).skip(4) =~= rest);
}

/// Reading back what was written gives the value and what followed.
pub proof fn lemma_parse_u64(x: u64, rest: Seq<u8>)
    ensures
        parse_u64(le_u64(x) + rest) == Some((x, rest)),
{
    lemma_u64_bits(x);
    assert((le_u64(x) + rest).skip(8) =~= rest);
}

/// Reading back what was written gives the value and what followed.
pub proof fn lemma_parse_bytes(s: Seq<u8>, rest: Seq<u8>)
    requires
        s.len() <= u64::MAX,
    ensures
        parse_bytes(enc_bytes(s) + rest) == Some((s, rest)),
{
    let t = s + rest;
    assert(enc_bytes(s) + rest =~= le_u64(s.len() as u64) + t);
    lemma_parse_u64(s.len() as u64, t);
    assert(t.take(s.len() as int) =~= s);
    assert(t.skip(s.len() as int) =~= rest);
}

/// Appends the little-endian bytes of `x`.
pub fn push_u16(out: &mut Vec<u8>, x: u16)
    ensures
        final(out)@ == old(out)@ + le_u16(x),
{
    out.push(x as u8);
    out.push((x >> 8u16) as u8);
    assert(final(out)@ =~= old(out)@ + le_u16(x));
}

pub fn push_u32(out: &mut Vec<u8>, x: u32)
    ensures
        final(out)@ == old(out)@ + le_u32(x),
{
    out.push(x as u8);
    out.push((x >> 8u32) as u8);
    out.push((x >> 16u32) as u8);
    out.push((x >> 24u32) as u8);
    assert(final(out)@ =~= old(out)@ + le_u32(x));
}

pub fn push_u64(out: &mut Vec<u8>, x: u64)
    ensures
        final(out)@ == old(out)@ + le_u64(x),
{
    out.push(x as u8);
    out.push((x >> 8u64) as u8);
    out.push((x >> 16u64) as u8);
    out.push((x >> 24u64) as u8);
    out.push((x >> 32u64) as u8);
    out.push((x >> 40u64) as u8);
    out.push((x >> 48u64) as u8);
    out.push((x >> 56u64) as u8);
    assert(final(out)@ =~= old(out)@ + le_u64(x));
}

/// Appends the bytes of `s`.
pub fn push_all(out: &mut Vec<u8>, s: &[u8])
    ensures
        final(out)@ == old(out)@ + s@,
{
    let mut i: usize = 0;
    while i < s.len()
        invariant
            i <= s@.len(),
            out@ == old(out)@ + s@.take(i as int),
        decreases s@.len() - i,
    {
        out.push(s[i]);
        i = i + 1;
        assert(out@ =~= old(out)@ + s@.take(i as int));
    }
    assert(s@.take(i as int) =~= s@);
}

/// Appends `s` as a length-prefixed byte string.
pub fn push_bytes(out: &mut Vec<u8>, s: &[u8])
    ensures
        final(out)@ == old(out)@ + enc_bytes(s@),
{
    push_u64(out, s.len() as u64);
    push_all(out, s);
    assert(final(out)@ =~= old(out)@ + enc_bytes(s@));
}

/// A copy of `s[from..to]`.
pub fn copy_range(s: &[u8], from: usize, to: usize) -> (r: Vec<u8>)
    requires
        from <= to <= s@.len(),
    ensures
        r@ == s@.subrange(from as int, to as int),
{
    let mut r: Vec<u8> = Vec::new();
    let mut i: usize = from;
    while i < to
        invariant
            from <= i <= to <= s@.len(),
            r@ == s@.subrange(from as int, i as int),
        decreases to - i,
    {
        r.push(s[i]);
        i = i + 1;
        assert(r@ =~= s@.subrange(from as int, i as int));
    }
    r
}

/// A copy of `s`.
pub fn copy_bytes(s: &[u8]) -> (r: Vec<u8>)
    ensures
        r@ == s@,
{
    let r = copy_range(s, 0, s.len());
    assert(s@.subrange(0, s@.len() as int) =~= s@);
    r
}

/// Whether two byte strings are equal.
pub fn bytes_eq(a: &[u8], b: &[u8]) -> (r: bool)
    ensures
        r == (a@ == b@),
{
    if a.len() != b.len() {
        return false;
    }
    let mut i: usize = 0;
    while i < a.len()
        invariant
            a@.len() == b@.len(),
            i <= a@.len(),
            forall|j: int| 0 <= j < i ==> a@[j] == b@[j],
        decreases a@.len() - i,
    {
        if a[i] != b[i] {
            return false;
        }
        i = i + 1;
    }
    assert(a@ =~= b@);
    true
}

/// Reads a little-endian `u32` at `pos`; the new position is `pos + 4`.
pub fn read_u32(s: &[u8], pos: usize) -> (r: Option<u32>)
    requires
        pos <= s@.len(),
    ensures
        match parse_u32(s@.skip(pos as int)) {
            Some((x, _)) => r == Some(x),
            None => r is None,
        },
{
    if s.len() - pos < 4 {
        return None;
    }
    let x = (s[pos] as u32) | ((s[pos + 1] as u32) << 8u32) | ((s[pos + 2] as u32) << 16u32) | ((
    s[pos + 3] as u32) << 24u32);
    Some(x)
}

/// Reads a little-endian `u64` at `pos`; the new position is `pos + 8`.
pub fn read_u64(s: &[u8], pos: usize) -> (r: Option<u64>)
    requires
        pos <= s@.len(),
    ensures
        match parse_u64(s@.skip(pos as int)) {
            Some((x, _)) => r == Some(x),
            None => r is None,
        },
{
    if s.len() - pos < 8 {
        return None;
    }
    let x = (s[pos] as u64) | ((s[pos + 1] as u64) << 8u64) | ((s[pos + 2] as u64) << 16u64) | ((
    s[pos + 3] as u64) << 24u64) | ((s[pos + 4] as u64) << 32u64) | ((s[pos + 5] as u64) << 40u64)
        | ((s[pos + 6] as u64) << 48u64) | ((s[pos + 7] as u64) << 56u64);
    Some(x)
}

/// Reads a length-prefixed byte string at `pos`, with the position after it.
pub fn read_bytes(s: &[u8], pos: usize) -> (r: Option<(Vec<u8>, usize)>)
    requires
        pos <= s@.len(),
    ensures
        match parse_bytes(s@.skip(pos as int)) {
            Some((v, rest)) => r matches Some((w, p)) && w@ == v && p <= s@.len() && rest
                == s@.skip(p as int),
            None => r is None,
        },
{
    match read_u64(s, pos) {
        None => None,
        Some(n) => {
            assert(parse_u64(s@.skip(pos as int)) is Some);
            let len = s.len();
            assert(s@.skip(pos as int).len() == len - pos);
            let start = pos + 8;
            if n > (s.len() - start) as u64 {
                return None;
            }
            let end = start + n as usize;
            let v = copy_range(s, start, end);
            proof {
                let t = s@.skip(pos as int);
                assert(t.skip(8) =~= s@.skip(start as int));
                assert(t.skip(8).take(n as int) =~= v@);
                assert(t.skip(8).skip(n as int) =~= s@.skip(end as int));
            }
            Some((v, end))
        },
    }
}

} // verus!
