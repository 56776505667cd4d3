//! Merkle trees of the `merkle_light` crate over SHA3-256, and the
//! inclusion proofs that participants check.
use vstd::prelude::*;
use crypto::digest::Digest;
use merkle_light::hash::Algorithm;
use crate::common::{self as bytes, sha3_256};

verus! {

/// Opaque handle on the SHA-3 state of the `rust-crypto` crate.
#[verifier::external_type_specification]
#[verifier::external_body]
pub struct ExSha3(crypto::sha3::Sha3);

/// The hash algorithm of the merkle trees: a SHA3-256 state of `rust-crypto`,
/// and whether its digest has been taken since it was last fresh. Once the
/// digest is out, `rust-crypto` refuses both more input and another digest
/// until the state is reset, so the flag decides when a reset comes first.
pub struct HashAlgorithm {
    state: crypto::sha3::Sha3,
    squeezed: bool,
}

/// `crypto::sha3::Sha3::new(Sha3Mode::Sha3_256)`: a fresh SHA3-256 state;
/// nothing is claimed of it.
#[verifier::external_body]
fn sha3_state() -> crypto::sha3::Sha3 {
    crypto::sha3::Sha3::new(crypto::sha3::Sha3Mode::Sha3_256)
}

/// `Sha3::input` on the state of `h`: feeds `msg` to it. `rust-crypto`
/// panics there once the digest has been taken, so that state is excluded;
/// nothing is claimed of the new state, and the flag is left as it was.
#[verifier::external_body]
fn sha3_input(h: &mut HashAlgorithm, msg: &[u8])
    requires
        !old(h).squeezed,
    ensures
        final(h).squeezed == old(h).squeezed,
{
    h.state.input(msg)
}

/// `Sha3::result` on the state of `h`: the 32-byte digest of what was fed
/// since the state was fresh (nothing is claimed of its bytes here: the
/// trees are specified through the names below). `rust-crypto` panics there
/// once the digest has been taken, so that state is excluded; the flag is
/// left as it was, for the caller to set.
#[verifier::external_body]
fn sha3_result(h: &mut HashAlgorithm) -> (digest: [u8; 32])
    requires
        !old(h).squeezed,
    ensures
        final(h).squeezed == old(h).squeezed,
{
    let mut out = [0u8; 32];
    h.state.result(&mut out);
    out
}

/// `Sha3::reset` on the state of `h`: back to the fresh state, whatever
/// came before; the flag is left as it was, for the caller to clear.
#[verifier::external_body]
fn sha3_reset(h: &mut HashAlgorithm)
    ensures
        final(h).squeezed == old(h).squeezed,
{
    h.state.reset()
}

impl HashAlgorithm {
    /// Whether the digest has been taken since the state was last fresh.
    pub closed spec fn is_squeezed(&self) -> bool {
        self.squeezed
    }

    /// A fresh SHA3-256 state.
    pub fn new() -> (h: HashAlgorithm)
        ensures
            !h.is_squeezed(),
    {
        HashAlgorithm { state: sha3_state(), squeezed: false }
    }

    /// Resets the state if its digest has been taken.
    fn refresh(&mut self)
        ensures
            !final(self).is_squeezed(),
    {
        if self.squeezed {
            sha3_reset(self);
            self.squeezed = false;
        }
    }
}

impl Default for HashAlgorithm {
    fn default() -> HashAlgorithm {
        HashAlgorithm::new()
    }
}

impl std::hash::Hasher for HashAlgorithm {
    /// Feeds `msg` to the state; after a digest the state starts afresh.
    fn write(&mut self, msg: &[u8])
        ensures
            !final(self).is_squeezed(),
    {
        self.refresh();
        sha3_input(self, msg);
    }

    /// `merkle_light` never asks a merkle hasher for a 64-bit digest; this
    /// one has none and answers 0.
    fn finish(&self) -> (r: u64)
        ensures
            r == 0,
    {
        0
    }
}

impl merkle_light::hash::Algorithm<[u8; 32]> for HashAlgorithm {
    /// The digest of what was fed since the state was fresh (a second
    /// digest without a reset is that of nothing fed).
    fn hash(&mut self) -> [u8; 32] {
        self.refresh();
        let h = sha3_result(self);
        self.squeezed = true;
        h
    }

    /// Back to the fresh state.
    fn reset(&mut self) {
        sha3_reset(self);
        self.squeezed = false;
    }
}


/// The hash of a merkle leaf: SHA3-256 of the byte `0x00` and the item.
pub open spec fn leaf_node_hash(item: Seq<u8>) -> Seq<u8> {
    bytes::sha3_256_digest(seq![0u8] + item)
}

/// The hash of an interior merkle node: SHA3-256 of the byte `0x01`, the left
/// child and the right child.
pub open spec fn inner_node_hash(left: Seq<u8>, right: Seq<u8>) -> Seq<u8> {
    bytes::sha3_256_digest(seq![1u8] + left + right)
}

/// The hash that the first `n + 1` lemma entries of a proof lead to: starting
/// from `lemma[0]`, each step combines with the next sibling, on the side
/// that `path` gives (`true`: the running hash is the left child).
pub open spec fn proof_fold(lemma: Seq<[u8; 32]>, path: Seq<bool>, n: int) -> Seq<u8>
    decreases n,
{
    if n <= 0 {
        lemma[0]@
    } else {
        let h = proof_fold(lemma, path, n - 1);
        if path[n - 1] {
            inner_node_hash(h, lemma[n]@)
        } else {
            inner_node_hash(lemma[n]@, h)
        }
    }
}

/// An inclusion proof validates when folding the path from the item reaches
/// the root at the end of the lemma.
pub open spec fn proof_valid(lemma: Seq<[u8; 32]>, path: Seq<bool>) -> bool {
    lemma.len() >= 2 && proof_fold(lemma, path, lemma.len() - 2) == lemma.last()@
}

/// A proof a participant accepts: shaped as `merkle_light`'s `Proof::new`
/// requires, and validating.
pub open spec fn proof_ok(p: MerkleProof) -> bool {
    &&& p.lemma@.len() > 2
    &&& p.path@.len() == p.lemma@.len() - 2
    &&& proof_valid(p.lemma@, p.path@)
}

/// A merkle inclusion proof: `[item, siblings..., root]` and the side of
/// every step.
#[derive(Debug, Clone)]
pub struct MerkleProof {
    pub lemma: Vec<[u8; 32]>,
    pub path: Vec<bool>,
}

impl MerkleProof {
    /// Checks the proof as `merkle_light`'s `Proof::new` followed by
    /// `Proof::validate` does (the former refuses proofs of fewer than three
    /// entries or with a path of the wrong length).
    pub fn validate(&self) -> (ok: bool)
        requires
            self.lemma.len() > 2,
            self.path.len() == self.lemma.len() - 2,
        ensures
            ok == proof_valid(self.lemma@, self.path@),
    {
        let size = self.lemma.len();
        let mut h: [u8; 32] = self.lemma[0];
        let mut i: usize = 1;
        while i < size - 1
            invariant
                size == self.lemma.len(),
                size > 2,
                self.path.len() == size - 2,
                1 <= i <= size - 1,
                h@ == proof_fold(self.lemma@, self.path@, i - 1),
            decreases size - 1 - i,
        {
            let mut buf: Vec<u8> = Vec::new();
            buf.push(1u8);
            if self.path[i - 1] {
                crate::common::extend_bytes(&mut buf, h.as_slice());
                crate::common::extend_bytes(&mut buf, self.lemma[i].as_slice());
                assert(buf@ =~= seq![1u8] + h@ + self.lemma@[i as int]@);
            } else {
                crate::common::extend_bytes(&mut buf, self.lemma[i].as_slice());
                crate::common::extend_bytes(&mut buf, h.as_slice());
                assert(buf@ =~= seq![1u8] + self.lemma@[i as int]@ + h@);
            }
            h = sha3_256(buf.as_slice());
            i = i + 1;
        }
        let root: [u8; 32] = self.lemma[size - 1];
        let ok = bytes_eq(&h, &root);
        ok
    }

    /// The proof with no entries, sent when no proof can be given.
    pub fn empty() -> (p: Self)
        ensures
            p.lemma@.len() == 0,
            p.path@.len() == 0,
    {
        MerkleProof { lemma: Vec::new(), path: Vec::new() }
    }
}

/// Whether two 32-byte strings are equal.
pub fn bytes_eq(a: &[u8; 32], b: &[u8; 32]) -> (eq: bool)
    ensures
        eq == (a@ == b@),
{
    let mut i: usize = 0;
    while i < 32
        invariant
            i <= 32,
            forall|k: int| 0 <= k < i ==> a@[k] == b@[k],
        decreases 32 - i,
    {
        if a[i] != b[i] {
            return false;
        }
        i = i + 1;
    }
    assert(a@ =~= b@);
    true
}

/// A `merkle_light` merkle tree over 32-byte items hashed with SHA3-256,
/// held opaquely (Verus refuses to declare the crate's type, whose parameters
/// are bound by the crate's own `Algorithm` trait).
#[verifier::external_body]
pub struct MerkleTree {
    inner: merkle_light::merkle::MerkleTree<[u8; 32], HashAlgorithm>,
}

/// The items a tree was built from.
pub uninterp spec fn merkle_items(t: MerkleTree) -> Seq<[u8; 32]>;

/// The root `merkle_light` computes for a sequence of items.
pub uninterp spec fn merkle_root_of(items: Seq<[u8; 32]>) -> [u8; 32];

/// The inclusion proof `merkle_light` generates for item `i`: its lemma and path.
pub uninterp spec fn merkle_proof_of(items: Seq<[u8; 32]>, i: int) -> (Seq<[u8; 32]>, Seq<bool>);

impl MerkleTree {
    /// `MerkleTree::from_iter` of `merkle_light`: builds the tree over `items`,
    /// which it requires to hold at least two. Claimed: the tree holds `items`.
    #[verifier::external_body]
    pub fn from_items(items: Vec<[u8; 32]>) -> (t: Self)
        requires
            items.len() > 1,
        ensures
            merkle_items(t) == items@,
    {
        MerkleTree { inner: items.into_iter().collect() }
    }

    /// `MerkleTree::gen_proof` of `merkle_light` for item `i`, which it
    /// requires to be among the items, converted field by field. Claimed, as
    /// the crate's source builds it: the proof is the named
    /// `merkle_proof_of(items, i)`; its lemma starts with the leaf hash of
    /// item `i` and ends with the named root, holds two entries more than the
    /// path and at least three, and validates.
    #[verifier::external_body]
    pub fn gen_proof(&self, i: usize) -> (p: MerkleProof)
        requires
            i < merkle_items(*self).len(),
        ensures
            (p.lemma@, p.path@) == merkle_proof_of(merkle_items(*self), i as int),
            p.lemma@.len() == p.path@.len() + 2,
            p.lemma@.len() > 2,
            p.lemma@[0]@ == leaf_node_hash(merkle_items(*self)[i as int]@),
            p.lemma@.last() == merkle_root_of(merkle_items(*self)),
            proof_valid(p.lemma@, p.path@),
    {
        let proof = self.inner.gen_proof(i);
        MerkleProof { lemma: proof.lemma().to_vec(), path: proof.path().to_vec() }
    }
}

} // verus!
