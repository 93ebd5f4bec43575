//! 160-bit node identifiers, XOR distance and bucket indices.
use vstd::prelude::*;
use crate::bytes::{bytes_eq, copy_bytes};
use sha1::Digest;

verus! {

/// Number of bytes in an identifier.
pub const ID_LEN: usize = 20;

/// Number of buckets in a routing table: one per bit of an identifier.
pub const BUCKET_COUNT: usize = 160;

/// The SHA-1 digest of a byte string.
pub uninterp spec fn sha1_digest(data: Seq<u8>) -> Seq<u8>;

/// Relies on `sha1::Sha1::digest`: the 20-byte SHA-1 digest of `data`.
#[verifier::external_body]
fn sha1_of(data: &[u8]) -> (r: Vec<u8>)
    ensures
        r@ == sha1_digest(data@),
        r@.len() == ID_LEN,
{
    sha1::Sha1::digest(data).to_vec()
}

/// A node identifier: 20 bytes, most significant first.
#[derive(Clone, Debug, PartialEq, Eq, Hash)]
pub struct NodeId {
    pub bytes: Vec<u8>,
}

impl View for NodeId {
    type V = Seq<u8>;

    open spec fn view(&self) -> Seq<u8> {
        self.bytes@
    }
}

pub open spec fn xor_seq(a: Seq<u8>, b: Seq<u8>) -> Seq<u8> {
    Seq::new(a.len(), |i: int| a[i] ^ b[i])
}

/// Leading zero bits of a byte.
pub open spec fn lz8(x: u8) -> nat {
    if x >= 128 {
        0
    } else if x >= 64 {
        1
    } else if x >= 32 {
        2
    } else if x >= 16 {
        3
    } else if x >= 8 {
        4
    } else if x >= 4 {
        5
    } else if x >= 2 {
        6
    } else if x >= 1 {
        7
    } else {
        8
    }
}

/// Bucket index from byte `i` on: the position, counted from the most
/// significant bit, of the first bit where `a` and `b` differ; 0 when equal.
pub open spec fn bucket_from(a: Seq<u8>, b: Seq<u8>, i: int) -> nat
    decreases a.len() - i,
{
    if i < 0 || i >= a.len() {
        0
    } else if a[i] != b[i] {
        (8 * i + lz8(a[i] ^ b[i])) as nat
    } else {
        bucket_from(a, b, i + 1)
    }
}

pub open spec fn bucket_of(a: Seq<u8>, b: Seq<u8>) -> nat {
    bucket_from(a, b, 0)
}

/// Lexicographic (big-endian numeric) order on byte strings of one length,
/// looking from byte `i` on.
pub open spec fn lt_from(a: Seq<u8>, b: Seq<u8>, i: int) -> bool
    decreases a.len() - i,
{
    if i < 0 || i >= a.len() {
        false
    } else if a[i] < b[i] {
        true
    } else if a[i] > b[i] {
        false
    } else {
        lt_from(a, b, i + 1)
    }
}

/// `a` is numerically smaller than `b`.
pub open spec fn seq_lt(a: Seq<u8>, b: Seq<u8>) -> bool {
    lt_from(a, b, 0)
}

/// `a` is strictly closer to `target` than `b` is, in XOR distance.
pub open spec fn closer(target: Seq<u8>, a: Seq<u8>, b: Seq<u8>) -> bool {
    seq_lt(xor_seq(a, target), xor_seq(b, target))
}

pub proof fn lemma_lt_from_trans(a: Seq<u8>, b: Seq<u8>, c: Seq<u8>, i: int)
    requires
        a.len() == b.len() == c.len(),
        lt_from(a, b, i),
        lt_from(b, c, i),
    ensures
        lt_from(a, c, i),
    decreases a.len() - i,
{
    if 0 <= i < a.len() && a[i] == b[i] && b[i] == c[i] {
        lemma_lt_from_trans(a, b, c, i + 1);
    }
}

pub proof fn lemma_lt_from_irreflexive(a: Seq<u8>, i: int)
    ensures
        !lt_from(a, a, i),
    decreases a.len() - i,
{
    if 0 <= i < a.len() {
        lemma_lt_from_irreflexive(a, i + 1);
    }
}

proof fn lemma_xor_comm(x: u8, y: u8)
    ensures
        x ^ y == y ^ x,
{
    assert(x ^ y == y ^ x) by (bit_vector);
}

proof fn lemma_bucket_from_symmetric(a: Seq<u8>, b: Seq<u8>, i: int)
    requires
        a.len() == b.len(),
    ensures
        bucket_from(a, b, i) == bucket_from(b, a, i),
    decreases a.len() - i,
{
    if 0 <= i < a.len() {
        lemma_xor_comm(a[i], b[i]);
        lemma_bucket_from_symmetric(a, b, i + 1);
    }
}

/// XOR distance is symmetric, zero from an identifier to itself, and composes:
/// the distance from `a` to `c` is the XOR of the distances `a`–`b` and `b`–`c`.
/// The bucket index is symmetric too.
pub proof fn lemma_distance_laws(a: Seq<u8>, b: Seq<u8>, c: Seq<u8>)
    requires
        a.len() == ID_LEN,
        b.len() == ID_LEN,
        c.len() == ID_LEN,
    ensures
        xor_seq(a, b) == xor_seq(b, a),
        xor_seq(a, a) == Seq::new(ID_LEN as nat, |i: int| 0u8),
        xor_seq(xor_seq(a, b), xor_seq(b, c)) == xor_seq(a, c),
        bucket_of(a, b) == bucket_of(b, a),
{
    assert forall|i: int| 0 <= i < ID_LEN implies #[trigger] xor_seq(a, b)[i] == xor_seq(b, a)[i] by {
        let (x, y) = (a[i], b[i]);
        assert(x ^ y == y ^ x) by (bit_vector);
    }
    assert forall|i: int| 0 <= i < ID_LEN implies #[trigger] xor_seq(a, a)[i] == 0u8 by {
        let x = a[i];
        assert(x ^ x == 0) by (bit_vector);
    }
    assert forall|i: int| 0 <= i < ID_LEN implies #[trigger] xor_seq(xor_seq(a, b), xor_seq(b, c))[i]
        == xor_seq(a, c)[i] by {
        let (x, y, z) = (a[i], b[i], c[i]);
        assert((x ^ y) ^ (y ^ z) == x ^ z) by (bit_vector);
    }
    assert(xor_seq(a, b) =~= xor_seq(b, a));
    assert(xor_seq(a, a) =~= Seq::new(ID_LEN as nat, |i: int| 0u8));
    assert(xor_seq(xor_seq(a, b), xor_seq(b, c)) =~= xor_seq(a, c));
    lemma_bucket_from_symmetric(a, b, 0);
}

/// A byte string read as a big-endian number.
pub open spec fn be_value(s: Seq<u8>) -> nat
    decreases s.len(),
{
    if s.len() == 0 {
        0
    } else {
        be_value(s.drop_last()) * 256 + s.last() as nat
    }
}

proof fn lemma_xor_le_sum(x: Seq<u8>, y: Seq<u8>)
    requires
        x.len() == y.len(),
    ensures
        be_value(xor_seq(x, y)) <= be_value(x) + be_value(y),
    decreases x.len(),
{
    if x.len() > 0 {
        let (px, py) = (x.drop_last(), y.drop_last());
        assert(xor_seq(x, y).drop_last() =~= xor_seq(px, py));
        lemma_xor_le_sum(px, py);
        let (a, b) = (x.last(), y.last());
        assert(a ^ b <= a + b) by (bit_vector);
        let (v, vx, vy) = (be_value(xor_seq(px, py)), be_value(px), be_value(py));
        assert(v * 256 <= vx * 256 + vy * 256) by (nonlinear_arith)
            requires
                v <= vx + vy,
        ;
    }
}

/// The triangle inequality for XOR distance, with distances read as
/// numbers.
pub proof fn lemma_distance_triangle(a: Seq<u8>, b: Seq<u8>, c: Seq<u8>)
    requires
        a.len() == ID_LEN,
        b.len() == ID_LEN,
        c.len() == ID_LEN,
    ensures
        be_value(xor_seq(a, c)) <= be_value(xor_seq(a, b)) + be_value(xor_seq(b, c)),
{
    lemma_distance_laws(a, b, c);
    lemma_xor_le_sum(xor_seq(a, b), xor_seq(b, c));
}

fn leading_zeros8(x: u8) -> (r: u32)
    ensures
        r == lz8(x),
{
    if x >= 128 {
        0
    } else if x >= 64 {
        1
    } else if x >= 32 {
        2
    } else if x >= 16 {
        3
    } else if x >= 8 {
        4
    } else if x >= 4 {
        5
    } else if x >= 2 {
        6
    } else if x >= 1 {
        7
    } else {
        8
    }
}

impl NodeId {
    pub open spec fn wf(&self) -> bool {
        self@.len() == ID_LEN
    }

    /// The identifier derived from a seed: its SHA-1 digest.
    pub fn new(seed: &[u8]) -> (r: NodeId)
        ensures
            r@ == sha1_digest(seed@),
            r.wf(),
    {
        NodeId { bytes: sha1_of(seed) }
    }

    /// The identifier with the given 20 bytes, if there are 20.
    pub fn from_bytes(b: &[u8]) -> (r: Option<NodeId>)
        ensures
            b@.len() == ID_LEN ==> (r matches Some(id) && id@ == b@),
            b@.len() != ID_LEN ==> r is None,
    {
        if b.len() == ID_LEN {
            Some(NodeId { bytes: copy_bytes(b) })
        } else {
            None
        }
    }

    /// A copy of this identifier.
    pub fn copy(&self) -> (r: NodeId)
        ensures
            r@ == self@,
    {
        NodeId { bytes: copy_bytes(self.bytes.as_slice()) }
    }

    pub fn same_as(&self, other: &NodeId) -> (r: bool)
        ensures
            r == (self@ == other@),
    {
        bytes_eq(self.bytes.as_slice(), other.bytes.as_slice())
    }

    /// The XOR distance to `other`, byte by byte.
    pub fn distance(&self, other: &NodeId) -> (r: Vec<u8>)
        requires
            self.wf(),
            other.wf(),
        ensures
            r@ == xor_seq(self@, other@),
    {
        let mut r: Vec<u8> = Vec::new();
        let mut i: usize = 0;
        while i < ID_LEN
            invariant
                self.wf(),
                other.wf(),
                i <= ID_LEN,
                r@ == xor_seq(self@, other@).take(i as int),
            decreases ID_LEN - i,
        {
            r.push(self.bytes[i] ^ other.bytes[i]);
            i = i + 1;
            assert(r@ =~= xor_seq(self@, other@).take(i as int));
        }
        assert(xor_seq(self@, other@).take(ID_LEN as int) =~= xor_seq(self@, other@));
        r
    }

    /// The bucket that `other` falls in, seen from this identifier: the
    /// position of the first differing bit, most significant first.
    pub fn bucket_index(&self, other: &NodeId) -> (r: usize)
        requires
            self.wf(),
            other.wf(),
        ensures
            r == bucket_of(self@, other@),
            r < BUCKET_COUNT,
    {
        let mut i: usize = 0;
        while i < ID_LEN
            invariant
                self.wf(),
                other.wf(),
                i <= ID_LEN,
                bucket_of(self@, other@) == bucket_from(self@, other@, i as int),
            decreases ID_LEN - i,
        {
            let x = self.bytes[i];
            let y = other.bytes[i];
            if x != y {
                let lz = leading_zeros8(x ^ y);
                assert(x ^ y != 0) by (bit_vector)
                    requires
                        x != y,
                ;
                return 8 * i + lz as usize;
            }
            i = i + 1;
        }
        0
    }
}

/// Whether the distance `d1` is smaller than `d2`.
pub fn distance_lt(d1: &[u8], d2: &[u8]) -> (r: bool)
    requires
        d1@.len() == d2@.len(),
    ensures
        r == seq_lt(d1@, d2@),
{
    let mut i: usize = 0;
    while i < d1.len()
        invariant
            d1@.len() == d2@.len(),
            i <= d1@.len(),
            seq_lt(d1@, d2@) == lt_from(d1@, d2@, i as int),
        decreases d1@.len() - i,
    {
        if d1[i] < d2[i] {
            return true;
        }
        if d1[i] > d2[i] {
            return false;
        }
        i = i + 1;
    }
    false
}

} // verus!
