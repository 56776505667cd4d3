//! Entries of the commitment and summation arrays.
use vstd::prelude::*;
use crate::common::{self as bytes, sha3_256, extend_bytes, push_i128_le_bytes};

verus! {

/// A copy of `v`.
pub fn copy_bytes(v: &Vec<u8>) -> (r: Vec<u8>)
    ensures
        r@ == v@,
{
    let mut r: Vec<u8> = Vec::new();
    extend_bytes(&mut r, v.as_slice());
    assert(r@ =~= v@);
    r
}

/// A copy of `v`.
pub fn copy_i128s(v: &Vec<i128>) -> (r: Vec<i128>)
    ensures
        r@ == v@,
{
    let mut r: Vec<i128> = Vec::new();
    let mut i: usize = 0;
    while i < v.len()
        invariant
            i <= v.len(),
            r@ == v@.subrange(0, i as int),
        decreases v.len() - i,
    {
        r.push(v[i]);
        i = i + 1;
        assert(r@ =~= v@.subrange(0, i as int));
    }
    assert(v@.subrange(0, v.len() as int) =~= v@);
    r
}

/// A participant's commitment: its RSA public key and the hash it commits to.
#[derive(Debug, Clone)]
pub struct CommitEntry {
    pub rsa_pk: Vec<u8>,
    pub hash: [u8; 32],
}

/// The hash under which a commitment enters the commitment tree.
pub open spec fn commit_hash(e: CommitEntry) -> Seq<u8> {
    bytes::sha3_256_digest(e.rsa_pk@ + e.hash@)
}

impl CommitEntry {
    /// A placeholder commitment: 500 zero bytes of key, zero hash.
    pub fn new() -> (e: Self)
        ensures
            e.rsa_pk@ == Seq::new(500, |i: int| 0u8),
            forall|k: int| 0 <= k < 32 ==> #[trigger] e.hash@[k] == 0,
    {
        let rsa_pk = vec![0u8; 500];
        let e = CommitEntry { rsa_pk, hash: [0u8; 32] };
        assert(e.rsa_pk@ =~= Seq::new(500, |i: int| 0u8));
        e
    }

    /// SHA3-256 of `rsa_pk || hash`.
    pub fn hash(&self) -> (h: [u8; 32])
        ensures
            h@ == commit_hash(*self),
    {
        let mut buf: Vec<u8> = Vec::new();
        extend_bytes(&mut buf, self.rsa_pk.as_slice());
        extend_bytes(&mut buf, self.hash.as_slice());
        sha3_256(buf.as_slice())
    }

    /// A copy of this entry.
    pub fn duplicate(&self) -> (e: Self)
        ensures
            e.rsa_pk@ == self.rsa_pk@,
            e.hash == self.hash,
    {
        CommitEntry { rsa_pk: copy_bytes(&self.rsa_pk), hash: self.hash }
    }
}

/// A leaf of the summation array: a participant's key, its two ciphertext
/// polynomials, its nonce and its range proofs.
#[derive(Debug, Clone)]
pub struct SummationLeaf {
    pub rsa_pk: Vec<u8>,
    pub c0: Vec<i128>,
    pub c1: Vec<i128>,
    pub r: [u8; 16],
    pub proof: Vec<u8>,
}

/// The hash under which a leaf enters the summation tree.
pub open spec fn leaf_hash(l: SummationLeaf) -> Seq<u8> {
    bytes::sha3_256_digest(l.rsa_pk@ + bytes::i128s_le_bytes(l.c0@) + bytes::i128s_le_bytes(l.c1@) + l.r@)
}

impl SummationLeaf {
    /// The empty leaf.
    pub fn new() -> (l: Self)
        ensures
            l.rsa_pk@.len() == 0,
            l.c0@.len() == 0,
            l.c1@.len() == 0,
            l.proof@.len() == 0,
            forall|k: int| 0 <= k < 16 ==> #[trigger] l.r@[k] == 0,
    {
        SummationLeaf {
            rsa_pk: Vec::new(),
            c0: Vec::new(),
            c1: Vec::new(),
            r: [0u8; 16],
            proof: Vec::new(),
        }
    }

    /// The leaf made of the given fields.
    pub fn from_ct(rsa_pk: Vec<u8>, c0: Vec<i128>, c1: Vec<i128>, r: [u8; 16], proof: Vec<u8>) -> (l:
        Self)
        ensures
            l.rsa_pk == rsa_pk,
            l.c0 == c0,
            l.c1 == c1,
            l.r == r,
            l.proof == proof,
    {
        SummationLeaf { rsa_pk, c0, c1, r, proof }
    }

    /// SHA3-256 of `rsa_pk || le(c0) || le(c1) || r`.
    pub fn hash(&self) -> (h: [u8; 32])
        ensures
            h@ == leaf_hash(*self),
    {
        let mut buf: Vec<u8> = Vec::new();
        extend_bytes(&mut buf, self.rsa_pk.as_slice());
        let b0 = bytes::i128vec_to_le_bytes(&self.c0);
        let b1 = bytes::i128vec_to_le_bytes(&self.c1);
        extend_bytes(&mut buf, b0.as_slice());
        extend_bytes(&mut buf, b1.as_slice());
        extend_bytes(&mut buf, self.r.as_slice());
        sha3_256(buf.as_slice())
    }

    /// The leaf's contribution to a non-leaf: its first coefficient pair.
    pub fn evaluate_at(&self, r: i128) -> (n: SummationNonLeaf)
        requires
            self.c0.len() > 0,
            self.c1.len() > 0,
        ensures
            n.c0 == self.c0[0],
            n.c1 == self.c1[0],
    {
        SummationNonLeaf { c0: self.c0[0], c1: self.c1[0] }
    }

    /// A copy of this leaf.
    pub fn duplicate(&self) -> (l: Self)
        ensures
            l.rsa_pk@ == self.rsa_pk@,
            l.c0@ == self.c0@,
            l.c1@ == self.c1@,
            l.r == self.r,
            l.proof@ == self.proof@,
    {
        SummationLeaf {
            rsa_pk: copy_bytes(&self.rsa_pk),
            c0: copy_i128s(&self.c0),
            c1: copy_i128s(&self.c1),
            r: self.r,
            proof: copy_bytes(&self.proof),
        }
    }
}

/// A non-leaf of the summation array: a pair of partial sums.
#[derive(Debug, Clone, Copy, PartialEq, Eq, Structural)]
pub struct SummationNonLeaf {
    pub c0: i128,
    pub c1: i128,
}

/// The hash under which a non-leaf enters the summation tree.
pub open spec fn nonleaf_hash(n: SummationNonLeaf) -> Seq<u8> {
    bytes::sha3_256_digest(bytes::i128_le_bytes(n.c0) + bytes::i128_le_bytes(n.c1))
}

impl SummationNonLeaf {
    /// SHA3-256 of `le(c0) || le(c1)`.
    pub fn hash(&self) -> (h: [u8; 32])
        ensures
            h@ == nonleaf_hash(*self),
    {
        let mut buf: Vec<u8> = Vec::new();
        push_i128_le_bytes(&mut buf, self.c0);
        push_i128_le_bytes(&mut buf, self.c1);
        assert(buf@ =~= bytes::i128_le_bytes(self.c0) + bytes::i128_le_bytes(self.c1));
        sha3_256(buf.as_slice())
    }

    /// Component-wise sum.
    pub fn add(&self, other: &SummationNonLeaf) -> (s: SummationNonLeaf)
        requires
            i128::MIN <= self.c0 + other.c0 <= i128::MAX,
            i128::MIN <= self.c1 + other.c1 <= i128::MAX,
        ensures
            s.c0 == self.c0 + other.c0,
            s.c1 == self.c1 + other.c1,
    {
        SummationNonLeaf { c0: self.c0 + other.c0, c1: self.c1 + other.c1 }
    }
}

/// The coefficient-wise sum of `a` and `b`, the shorter one padded with zeros.
pub open spec fn padded_sum(a: Seq<i128>, b: Seq<i128>) -> Seq<int> {
    let n = if a.len() > b.len() { a.len() } else { b.len() };
    Seq::new(
        n,
        |i: int|
            (if i < a.len() { a[i] as int } else { 0 }) + (if i < b.len() { b[i] as int } else { 0 }),
    )
}

/// Adds two coefficient vectors, padding the shorter one with zeros.
pub fn add_two_vec(a: &Vec<i128>, b: &Vec<i128>) -> (r: Vec<i128>)
    requires
        forall|i: int|
            0 <= i < padded_sum(a@, b@).len() ==> i128::MIN <= #[trigger] padded_sum(a@, b@)[i]
                <= i128::MAX,
    ensures
        r.len() == padded_sum(a@, b@).len(),
        forall|i: int| 0 <= i < r.len() ==> r[i] as int == #[trigger] padded_sum(a@, b@)[i],
{
    let n = if a.len() > b.len() { a.len() } else { b.len() };
    let mut r: Vec<i128> = Vec::new();
    let mut i: usize = 0;
    while i < n
        invariant
            n == padded_sum(a@, b@).len(),
            i <= n,
            r.len() == i,
            forall|k: int|
                0 <= k < padded_sum(a@, b@).len() ==> i128::MIN <= #[trigger] padded_sum(a@, b@)[k]
                    <= i128::MAX,
            forall|k: int| 0 <= k < i ==> r[k] as int == #[trigger] padded_sum(a@, b@)[k],
        decreases n - i,
    {
        let x: i128 = if i < a.len() { a[i] } else { 0 };
        let y: i128 = if i < b.len() { b[i] } else { 0 };
        assert(x + y == padded_sum(a@, b@)[i as int]);
        r.push(x + y);
        i = i + 1;
    }
    r
}

/// An entry of the summation array.
#[derive(Debug, Clone)]
pub enum SummationEntry {
    Leaf(SummationLeaf),
    NonLeaf(SummationNonLeaf),
    Commit(CommitEntry),
}

impl SummationEntry {
    /// A leaf entry holding the empty leaf.
    pub fn new_leaf() -> (e: Self)
        ensures
            e is Leaf,
            e->Leaf_0.rsa_pk@.len() == 0,
            e->Leaf_0.c0@.len() == 0,
            e->Leaf_0.c1@.len() == 0,
    {
        SummationEntry::Leaf(SummationLeaf::new())
    }

    /// The key of a leaf entry.
    pub fn get_leaf_rsa_pk(&self) -> (pk: &Vec<u8>)
        requires
            self is Leaf,
        ensures
            pk == self->Leaf_0.rsa_pk,
    {
        match self {
            SummationEntry::Leaf(l) => &l.rsa_pk,
            _ => vstd::pervasive::unreached(),
        }
    }
}

} // verus!
