//! A participant of the aggregation: its key material and ciphertexts, the
//! commitments it uploads, the sample of the summation tree it asks for, and
//! the checks it runs on the server's answer. Talking to the server is the
//! caller's.
use vstd::prelude::*;
use rand::Rng;
use crate::aggregation::merkle::{self as mk, proof_ok, MerkleProof};
use crate::aggregation::node::{SummationEntry, SummationNonLeaf};
use crate::common::{self as cm, summation_array_size};
use crate::keyfile;
use crate::back_server::{self as bs, Server};
use crate::aggregation::tree::{self as tr, McTree, MsTree};
use crate::rlwe::{self, PublicKey, NUM_DIMENSION, PK_BOUND, NOISE_BOUND};

verus! {

/// A participant's state across rounds.
pub struct Client {
    pub rsa_pk: Vec<u8>,
    pub c0s: Vec<Vec<i128>>,
    pub c1s: Vec<Vec<i128>>,
    pub rs: Vec<Vec<i128>>,
    pub e0s: Vec<Vec<i128>>,
    pub e1s: Vec<Vec<i128>>,
    pub d0s: Vec<Vec<i32>>,
    pub d1s: Vec<Vec<i32>>,
    pub m: Vec<Vec<i128>>,
    pub nonce: Vec<[u8; 16]>,
    pub enc_pk: PublicKey,
}

/// The tags of the two public-key lines of a key file.
fn key_tags() -> (t: Vec<Vec<u8>>)
    ensures
        t@.len() == 2,
        t@[0]@ == seq![112u8, 107u8, 95u8, 48u8],
        t@[1]@ == seq![112u8, 107u8, 95u8, 49u8],
{
    let mut t: Vec<Vec<u8>> = Vec::new();
    t.push(vec![112u8, 107u8, 95u8, 48u8]);
    t.push(vec![112u8, 107u8, 95u8, 49u8]);
    t
}

/// The two public-key polynomials that a key file gives: the lines tagged
/// `pk_0` and `pk_1`, read as `keyfile::read_tagged` reads them into
/// `NUM_DIMENSION` coefficients each.
pub open spec fn key_file_polys(lines: Seq<Seq<u8>>) -> Seq<Seq<i128>> {
    keyfile::read_state(
        lines,
        seq![seq![112u8, 107u8, 95u8, 48u8], seq![112u8, 107u8, 95u8, 49u8]],
        NUM_DIMENSION as int,
        lines.len() as int,
    )
}

/// Every coefficient lies inside `(-PK_BOUND, PK_BOUND)`.
pub open spec fn poly_bounded(p: Seq<i128>) -> bool {
    forall|k: int| 0 <= k < p.len() ==> -PK_BOUND < #[trigger] p[k] < PK_BOUND
}

/// Whether every coefficient of `p` lies inside `(-PK_BOUND, PK_BOUND)`.
fn poly_bounded_exec(p: &Vec<i128>) -> (b: bool)
    ensures
        b == poly_bounded(p@),
{
    let mut i: usize = 0;
    while i < p.len()
        invariant
            i <= p.len(),
            forall|k: int| 0 <= k < i ==> -PK_BOUND < #[trigger] p@[k] < PK_BOUND,
        decreases p.len() - i,
    {
        if p[i] <= -PK_BOUND || p[i] >= PK_BOUND {
            return false;
        }
        i = i + 1;
    }
    true
}

impl Client {
    /// The key matrices are within the bounds that encryption needs.
    pub open spec fn wf(&self) -> bool {
        &&& rlwe::key_matrix_bounded(self.enc_pk.pk_0@)
        &&& rlwe::key_matrix_bounded(self.enc_pk.pk_1@)
    }

    /// A participant whose encryption key is read from the lines of a key
    /// file and whose RSA key is fresh. `None` where a key line does not fit
    /// `NUM_DIMENSION` coefficients or a coefficient lies outside
    /// `(-PK_BOUND, PK_BOUND)`.
    pub fn new(key_lines: &Vec<Vec<u8>>) -> (c: Option<Self>)
        ensures
            ({
                let lv = key_lines@.map_values(|v: Vec<u8>| v@);
                let tags = seq![seq![112u8, 107u8, 95u8, 48u8], seq![112u8, 107u8, 95u8, 49u8]];
                &&& c is Some <==> (forall|k: int|
                    0 <= k < lv.len() ==> keyfile::line_fits(#[trigger] lv[k], tags, NUM_DIMENSION as int))
                    && poly_bounded(key_file_polys(lv)[0]) && poly_bounded(key_file_polys(lv)[1])
                &&& c is Some ==> {
                    let cl = c->0;
                    &&& cl.wf()
                    &&& rlwe::is_negacyclic_matrix(cl.enc_pk.pk_0@, key_file_polys(lv)[0])
                    &&& rlwe::is_negacyclic_matrix(cl.enc_pk.pk_1@, key_file_polys(lv)[1])
                    &&& cl.c0s.len() == 0 && cl.c1s.len() == 0 && cl.rs.len() == 0
                    &&& cl.e0s.len() == 0 && cl.e1s.len() == 0 && cl.d0s.len() == 0 && cl.d1s.len() == 0
                    &&& cl.m.len() == 0 && cl.nonce.len() == 0
                }
            }),
    {
        let tags = key_tags();
        let ghost lv = key_lines@.map_values(|v: Vec<u8>| v@);
        let ghost tv = tags@.map_values(|v: Vec<u8>| v@);
        assert(tv =~= seq![seq![112u8, 107u8, 95u8, 48u8], seq![112u8, 107u8, 95u8, 49u8]]);
        let polys = match keyfile::read_tagged(key_lines, &tags, NUM_DIMENSION) {
            Some(p) => p,
            None => return None,
        };
        proof {
            keyfile::lemma_read_state_shape(lv, tv, NUM_DIMENSION as int, lv.len() as int);
            assert(polys@.map_values(|v: Vec<i128>| v@)[0] == polys@[0]@);
            assert(polys@.map_values(|v: Vec<i128>| v@)[1] == polys@[1]@);
        }
        let p0 = &polys[0];
        let p1 = &polys[1];
        if !poly_bounded_exec(p0) || !poly_bounded_exec(p1) {
            return None;
        }
        proof {
            assert forall|k: int| 0 <= k < p0.len() implies p0@[k] != i128::MIN by {
                assert(-PK_BOUND < p0@[k]);
            }
            assert forall|k: int| 0 <= k < p1.len() implies p1@[k] != i128::MIN by {
                assert(-PK_BOUND < p1@[k]);
            }
        }
        let enc_pk = PublicKey::new(p0, p1);
        proof {
            rlwe::lemma_negacyclic_bounded(enc_pk.pk_0@, p0@);
            rlwe::lemma_negacyclic_bounded(enc_pk.pk_1@, p1@);
        }
        Some(Client {
            rsa_pk: cm::new_rsa_pub_key(),
            c0s: Vec::new(),
            c1s: Vec::new(),
            rs: Vec::new(),
            e0s: Vec::new(),
            e1s: Vec::new(),
            d0s: Vec::new(),
            d1s: Vec::new(),
            m: Vec::new(),
            nonce: Vec::new(),
            enc_pk,
        })
    }
}


/// Chunk `i` of `xs`: its entries `i * NUM_DIMENSION` up to `(i + 1) * NUM_DIMENSION`.
pub open spec fn chunk(xs: Seq<u8>, i: int) -> Seq<u8> {
    xs.subrange(i * NUM_DIMENSION, (i + 1) * NUM_DIMENSION)
}

/// Ciphertext `i` encrypts `msg` under `pk` with randomness `r` and noise
/// `e0`, `e1`, the quotients being `d0`, `d1`.
pub open spec fn encrypts(
    pk: PublicKey,
    msg: Seq<u8>,
    r: Seq<i128>,
    e0: Seq<i128>,
    e1: Seq<i128>,
    d0: Seq<i32>,
    d1: Seq<i32>,
    c0: Seq<i128>,
    c1: Seq<i128>,
) -> bool {
    &&& r.len() == NUM_DIMENSION
    &&& forall|k: int| 0 <= k < NUM_DIMENSION ==> 0 <= #[trigger] r[k] < 3
    &&& d0.len() == NUM_DIMENSION && d1.len() == NUM_DIMENSION
    &&& c0.len() == NUM_DIMENSION && c1.len() == NUM_DIMENSION
    &&& forall|k: int|
        0 <= k < NUM_DIMENSION ==> {
            let a0 = #[trigger] rlwe::encrypted_value(pk.pk_0@, r, e0, 0, k);
            let a1 = rlwe::encrypted_value(pk.pk_1@, r, e1, msg[k] as int, k);
            &&& d0[k] as int == a0 / (rlwe::MODULUS as int)
            &&& c0[k] as int == a0 % (rlwe::MODULUS as int)
            &&& d1[k] as int == a1 / (rlwe::MODULUS as int)
            &&& c1[k] as int == a1 % (rlwe::MODULUS as int)
        }
}

impl Client {
    /// Forgets the ciphertexts of the last round and what made them (the
    /// messages and nonces stay, as they always did).
    pub fn clear(&mut self)
        ensures
            final(self).c0s.len() == 0,
            final(self).c1s.len() == 0,
            final(self).rs.len() == 0,
            final(self).e0s.len() == 0,
            final(self).e1s.len() == 0,
            final(self).d0s.len() == 0,
            final(self).d1s.len() == 0,
            final(self).m == old(self).m,
            final(self).nonce == old(self).nonce,
            final(self).rsa_pk == old(self).rsa_pk,
            final(self).enc_pk == old(self).enc_pk,
    {
        self.c0s.clear();
        self.c1s.clear();
        self.rs.clear();
        self.e0s.clear();
        self.e1s.clear();
        self.d0s.clear();
        self.d1s.clear();
    }

    /// Encrypts `xs` chunk by chunk of `NUM_DIMENSION` bytes (a shorter tail
    /// is left out) with noise pair `i` for chunk `i`, after forgetting the
    /// last round's ciphertexts; each chunk also records its message and a
    /// zero nonce.
    pub fn encrypt(&mut self, xs: &Vec<u8>, noise: &Vec<(Vec<i128>, Vec<i128>)>)
        requires
            old(self).wf(),
            noise.len() >= xs.len() / NUM_DIMENSION,
            forall|i: int|
                0 <= i < xs.len() / NUM_DIMENSION ==> rlwe::prefix_bounded((#[trigger] noise@[i]).0@, NOISE_BOUND as int)
                    && rlwe::prefix_bounded(noise@[i].1@, NOISE_BOUND as int),
        ensures
            final(self).wf(),
            final(self).rsa_pk == old(self).rsa_pk,
            final(self).enc_pk == old(self).enc_pk,
            ({
                let n = xs.len() / NUM_DIMENSION;
                let f = *final(self);
                &&& f.c0s.len() == n && f.c1s.len() == n && f.rs.len() == n
                &&& f.e0s.len() == n && f.e1s.len() == n && f.d0s.len() == n && f.d1s.len() == n
                &&& f.m.len() == old(self).m.len() + n
                &&& f.nonce.len() == old(self).nonce.len() + n
                &&& forall|i: int| 0 <= i < old(self).m.len() ==> #[trigger] f.m@[i] == old(self).m@[i]
                &&& forall|i: int| 0 <= i < old(self).nonce.len() ==> #[trigger] f.nonce@[i] == old(self).nonce@[i]
                &&& forall|i: int|
                    0 <= i < n ==> {
                        &&& #[trigger] encrypts(
                            f.enc_pk,
                            chunk(xs@, i),
                            f.rs@[i]@,
                            f.e0s@[i]@,
                            f.e1s@[i]@,
                            f.d0s@[i]@,
                            f.d1s@[i]@,
                            f.c0s@[i]@,
                            f.c1s@[i]@,
                        )
                        &&& f.e0s@[i]@ == noise@[i].0@
                        &&& f.e1s@[i]@ == noise@[i].1@
                        &&& f.m@[old(self).m.len() + i]@ == chunk(xs@, i).map_values(|x: u8| x as i128)
                        &&& f.nonce@[old(self).nonce.len() + i]@ == Seq::new(16, |q: int| 0u8)
                    }
            }),
    {
        self.clear();
        let n = xs.len() / NUM_DIMENSION;
        let ghost m0 = old(self).m@;
        let ghost nonce0 = old(self).nonce@;
        let mut i: usize = 0;
        while i < n
            invariant
                n == xs.len() / NUM_DIMENSION,
                i <= n,
                noise.len() >= n,
                forall|j: int|
                    0 <= j < n ==> rlwe::prefix_bounded((#[trigger] noise@[j]).0@, NOISE_BOUND as int)
                        && rlwe::prefix_bounded(noise@[j].1@, NOISE_BOUND as int),
                self.wf(),
                self.rsa_pk == old(self).rsa_pk,
                self.enc_pk == old(self).enc_pk,
                self.c0s.len() == i && self.c1s.len() == i && self.rs.len() == i,
                self.e0s.len() == i && self.e1s.len() == i && self.d0s.len() == i && self.d1s.len() == i,
                self.m.len() == m0.len() + i,
                self.nonce.len() == nonce0.len() + i,
                forall|j: int| 0 <= j < m0.len() ==> #[trigger] self.m@[j] == m0[j],
                forall|j: int| 0 <= j < nonce0.len() ==> #[trigger] self.nonce@[j] == nonce0[j],
                forall|j: int|
                    0 <= j < i ==> {
                        &&& #[trigger] encrypts(
                            self.enc_pk,
                            chunk(xs@, j),
                            self.rs@[j]@,
                            self.e0s@[j]@,
                            self.e1s@[j]@,
                            self.d0s@[j]@,
                            self.d1s@[j]@,
                            self.c0s@[j]@,
                            self.c1s@[j]@,
                        )
                        &&& self.e0s@[j]@ == noise@[j].0@
                        &&& self.e1s@[j]@ == noise@[j].1@
                        &&& self.m@[m0.len() + j]@ == chunk(xs@, j).map_values(|x: u8| x as i128)
                        &&& self.nonce@[nonce0.len() + j]@ == Seq::new(16, |q: int| 0u8)
                    },
            decreases n - i,
        {
            let base = i * NUM_DIMENSION;
            proof {
                assert(i + 1 <= n);
                assert((i + 1) * NUM_DIMENSION <= n * NUM_DIMENSION) by (nonlinear_arith)
                    requires
                        i + 1 <= n,
                ;
                assert(n * NUM_DIMENSION <= xs.len()) by (nonlinear_arith)
                    requires
                        n == xs.len() / NUM_DIMENSION,
                ;
            }
            let mut msg: Vec<u8> = Vec::new();
            let mut mv: Vec<i128> = Vec::new();
            let mut k: usize = 0;
            while k < NUM_DIMENSION
                invariant
                    base == i * NUM_DIMENSION,
                    base + NUM_DIMENSION <= xs.len(),
                    k <= NUM_DIMENSION,
                    msg@ == xs@.subrange(base as int, base + k),
                    mv@ == xs@.subrange(base as int, base + k).map_values(|x: u8| x as i128),
                decreases NUM_DIMENSION - k,
            {
                msg.push(xs[base + k]);
                mv.push(xs[base + k] as i128);
                k = k + 1;
                assert(msg@ =~= xs@.subrange(base as int, base + k));
                assert(mv@ =~= xs@.subrange(base as int, base + k).map_values(|x: u8| x as i128));
            }
            assert(msg@ == chunk(xs@, i as int));
            let e0 = crate::aggregation::node::copy_i128s(&noise[i].0);
            let e1 = crate::aggregation::node::copy_i128s(&noise[i].1);
            let (r, e0, e1, d0, d1, ct) = self.enc_pk.encrypt(msg, e0, e1);
            self.rs.push(r);
            self.e0s.push(e0);
            self.e1s.push(e1);
            self.d0s.push(d0);
            self.d1s.push(d1);
            self.c0s.push(ct.c_0);
            self.c1s.push(ct.c_1);
            self.m.push(mv);
            let z = [0u8; 16];
            assert(z@ =~= Seq::new(16, |q: int| 0u8));
            self.nonce.push(z);
            i = i + 1;
        }
    }
}


/// The commitment that a participant sends for ciphertext `i`: SHA3-256 of
/// its nonce, the little-endian bytes of both polynomials and its RSA key.
pub open spec fn commitment_of(nonce: [u8; 16], c0: Seq<i128>, c1: Seq<i128>, rsa_pk: Seq<u8>) -> Seq<u8> {
    cm::sha3_256_digest(nonce@ + cm::i128s_le_bytes(c0) + cm::i128s_le_bytes(c1) + rsa_pk)
}

impl Client {
    /// One commitment per ciphertext of the round.
    pub fn hash(&self) -> (h: Vec<[u8; 32]>)
        requires
            self.nonce.len() >= self.c0s.len(),
            self.c1s.len() >= self.c0s.len(),
        ensures
            h.len() == self.c0s.len(),
            forall|i: int|
                0 <= i < h.len() ==> (#[trigger] h@[i])@ == commitment_of(
                    self.nonce@[i],
                    self.c0s@[i]@,
                    self.c1s@[i]@,
                    self.rsa_pk@,
                ),
    {
        let mut h: Vec<[u8; 32]> = Vec::new();
        let mut i: usize = 0;
        while i < self.c0s.len()
            invariant
                self.nonce.len() >= self.c0s.len(),
                self.c1s.len() >= self.c0s.len(),
                i <= self.c0s.len(),
                h.len() == i,
                forall|j: int|
                    0 <= j < i ==> (#[trigger] h@[j])@ == commitment_of(
                        self.nonce@[j],
                        self.c0s@[j]@,
                        self.c1s@[j]@,
                        self.rsa_pk@,
                    ),
            decreases self.c0s.len() - i,
        {
            let mut buf: Vec<u8> = Vec::new();
            let n = self.nonce[i];
            cm::extend_bytes(&mut buf, &n);
            let b0 = cm::i128vec_to_le_bytes(&self.c0s[i]);
            let b1 = cm::i128vec_to_le_bytes(&self.c1s[i]);
            cm::extend_bytes(&mut buf, b0.as_slice());
            cm::extend_bytes(&mut buf, b1.as_slice());
            cm::extend_bytes(&mut buf, self.rsa_pk.as_slice());
            let d = cm::sha3_256(buf.as_slice());
            h.push(d);
            i = i + 1;
        }
        h
    }
}

/// `Rng::gen_range(lo..hi)` of the `rand` crate on `u32`: a value of the
/// half-open range `[lo, hi)`, which must not be empty; which one is left to
/// chance.
#[verifier::external_body]
fn gen_range_u32(rng: &mut rand::rngs::StdRng, lo: u32, hi: u32) -> (x: u32)
    requires
        lo < hi,
    ensures
        lo <= x < hi,
{
    rng.gen_range(lo..hi)
}

/// The non-leaves over pairs of leaves that a participant asks for: starting
/// at leaf `vinit`, each even leaf position met within `s + 1` steps names
/// its parent `n + position / 2`, and the scan then skips the sibling.
pub open spec fn leaf_pair_picks(n: int, s: int, vinit: int, idx: int) -> Seq<u32>
    decreases (s + 2 - idx) as nat,
{
    if idx > s || n <= 0 || idx < 0 {
        Seq::empty()
    } else {
        let ii = (idx + vinit) % n;
        if ii % 2 == 0 {
            seq![(n + ii / 2) as u32] + leaf_pair_picks(n, s, vinit, idx + 2)
        } else {
            leaf_pair_picks(n, s, vinit, idx + 1)
        }
    }
}

/// How many non-leaves over non-leaves a participant draws, less one.
pub open spec fn nr_grandparents(s: int, vinit: int) -> int {
    if s % 2 == 1 && (vinit + s) % 2 == 0 {
        (s + 1) / 2
    } else {
        s / 2
    }
}

/// What `get_random_non_leafs(n, s, vinit)` may return: first the parents
/// of `leaf_pair_picks`, then `nr_grandparents + 1` triples of a non-leaf
/// among those above non-leaves and its two children (none where there is
/// no such non-leaf).
pub open spec fn non_leaf_sample(n: int, s: int, vinit: int, r: Seq<u32>) -> bool {
    let first = leaf_pair_picks(n, s, vinit, 0);
    let size = 2 * n - 1;
    let lo = n + n / 2;
    let g = nr_grandparents(s, vinit) + 1;
    &&& r.len() == first.len() + (if lo < size { 3 * g } else { 0 })
    &&& r.subrange(0, first.len() as int) == first
    &&& forall|t: int|
        0 <= t < (if lo < size { g } else { 0 }) ==> {
            let id = #[trigger] r[first.len() + 3 * t];
            &&& lo <= id < size
            &&& r[first.len() + 3 * t + 1] == (id - n) * 2
            &&& r[first.len() + 3 * t + 2] == (id - n) * 2 + 1
        }
}

/// The non-leaves a participant asks the server to show for `n` leaves,
/// a sample of size about `s` starting at leaf `vinit`: first the parents of
/// the leaf pairs of `leaf_pair_picks`, then `nr_grandparents + 1` triples
/// of a non-leaf drawn at random among those above non-leaves and its two
/// children (none where there is no such non-leaf).
pub fn get_random_non_leafs(n: u32, s: u32, vinit: u32) -> (r: Vec<u32>)
    requires
        1 <= n <= 0x8000_0000,
        vinit + s <= u32::MAX,
        s + 2 <= u32::MAX,
    ensures
        non_leaf_sample(n as int, s as int, vinit as int, r@),
{
    let mut rng = rlwe::entropy_rng();
    let mut non_leafs: Vec<u32> = Vec::new();
    let array_size = summation_array_size(n);
    let ghost first = leaf_pair_picks(n as int, s as int, vinit as int, 0);
    let mut idx: u32 = 0;
    while idx <= s
        invariant
            1 <= n <= 0x8000_0000,
            vinit + s <= u32::MAX,
            s + 2 <= u32::MAX,
            idx <= s + 2,
            first == leaf_pair_picks(n as int, s as int, vinit as int, 0),
            first == non_leafs@ + leaf_pair_picks(n as int, s as int, vinit as int, idx as int),
        decreases s + 2 - idx,
    {
        let ii = (idx + vinit) % n;
        assert(ii & 1u32 == 0 <==> ii % 2 == 0) by (bit_vector);
        if (ii & 1u32) == 0 && ii + 1 <= n {
            let ghost before = non_leafs@;
            non_leafs.push(n + ii / 2);
            assert(before + leaf_pair_picks(n as int, s as int, vinit as int, idx as int) =~= non_leafs@
                + leaf_pair_picks(n as int, s as int, vinit as int, idx + 2));
            idx = idx + 2;
        } else {
            idx = idx + 1;
        }
    }
    assert(non_leafs@ =~= first);
    let nr_gp: u32 = if (s & 1u32) != 0 && ((vinit + s) & 1u32) == 0 {
        (s + 1) / 2
    } else {
        s / 2
    };
    assert((s & 1u32 != 0) <==> s % 2 == 1) by (bit_vector);
    assert(((vinit + s) as u32 & 1u32 == 0) <==> (vinit + s) as u32 % 2 == 0) by (bit_vector);
    assert(nr_gp == nr_grandparents(s as int, vinit as int));
    let lo = n + n / 2;
    let mut t: u32 = 0;
    while t < nr_gp + 1
        invariant
            1 <= n <= 0x8000_0000,
            array_size == 2 * n - 1,
            lo == n + n / 2,
            nr_gp == nr_grandparents(s as int, vinit as int),
            nr_gp <= 0x8000_0000,
            t <= nr_gp + 1,
            non_leafs@.len() == first.len() + (if lo < array_size { 3 * t } else { 0 }),
            non_leafs@.subrange(0, first.len() as int) == first,
            forall|u: int|
                0 <= u < (if lo < array_size { t as int } else { 0 }) ==> {
                    let id = #[trigger] non_leafs@[first.len() + 3 * u];
                    &&& lo <= id < array_size
                    &&& non_leafs@[first.len() + 3 * u + 1] == (id - n) * 2
                    &&& non_leafs@[first.len() + 3 * u + 2] == (id - n) * 2 + 1
                },
        decreases nr_gp + 1 - t,
    {
        if lo < array_size {
            let id_gp = gen_range_u32(&mut rng, lo, array_size);
            let left = (id_gp - n) * 2;
            let right = left + 1;
            let ghost before = non_leafs@;
            non_leafs.push(id_gp);
            non_leafs.push(left);
            non_leafs.push(right);
            assert(non_leafs@.subrange(0, first.len() as int) =~= before.subrange(0, first.len() as int));
            assert(non_leafs@[first.len() + 3 * t] == id_gp);
        }
        t = t + 1;
    }
    non_leafs
}


/// Decides `proof_ok`.
pub fn proof_ok_exec(p: &MerkleProof) -> (b: bool)
    ensures
        b == proof_ok(*p),
{
    if p.lemma.len() <= 2 || p.path.len() != p.lemma.len() - 2 {
        return false;
    }
    p.validate()
}

/// `a + b` fits in an `i128`.
pub open spec fn sum_fits(a: int, b: int) -> bool {
    i128::MIN <= a + b <= i128::MAX
}

/// The first part of an answer: `s + 1` pairs of a commitment (with a valid
/// proof) and a summation-tree entry.
pub open spec fn leaves_ok(res: Seq<(SummationEntry, MerkleProof)>, s: int) -> bool {
    &&& 2 * s + 1 < res.len()
    &&& forall|i: int| 0 <= i <= s ==> proof_ok(#[trigger] res[2 * i].1)
}

/// The check of the parent at `res[i]` of the leaves `idx` and `idx + 1`:
/// its proof validates, both children are leaves with coefficients, and a
/// parent that is a non-leaf holds the sums of their first coefficients.
pub open spec fn pair_ok(res: Seq<(SummationEntry, MerkleProof)>, vinit: int, i: int, idx: int) -> bool {
    let li = 2 * (idx - vinit) + 1;
    let ri = 2 * (idx - vinit + 1) + 1;
    &&& i < res.len()
    &&& ri < res.len()
    &&& proof_ok(res[i].1)
    &&& res[li].0 is Leaf
    &&& res[ri].0 is Leaf
    &&& ({
        let a = res[li].0->Leaf_0;
        let b = res[ri].0->Leaf_0;
        &&& a.c0@.len() > 0 && a.c1@.len() > 0 && b.c0@.len() > 0 && b.c1@.len() > 0
        &&& sum_fits(a.c0@[0] as int, b.c0@[0] as int)
        &&& sum_fits(a.c1@[0] as int, b.c1@[0] as int)
        &&& res[i].0 is NonLeaf ==> res[i].0->NonLeaf_0.c0 == a.c0@[0] + b.c0@[0]
            && res[i].0->NonLeaf_0.c1 == a.c1@[0] + b.c1@[0]
    })
}

/// The check of the triple `res[i..i + 3]`: all three proofs validate, the
/// children are two non-leaves or a leaf and a non-leaf, and a parent that is
/// a non-leaf holds their sums.
pub open spec fn triple_ok(res: Seq<(SummationEntry, MerkleProof)>, i: int) -> bool {
    &&& i + 2 < res.len()
    &&& proof_ok(res[i].1)
    &&& proof_ok(res[i + 1].1)
    &&& proof_ok(res[i + 2].1)
    &&& match (res[i + 1].0, res[i + 2].0) {
        (SummationEntry::NonLeaf(a), SummationEntry::NonLeaf(b)) => {
            &&& sum_fits(a.c0 as int, b.c0 as int)
            &&& sum_fits(a.c1 as int, b.c1 as int)
            &&& res[i].0 is NonLeaf ==> res[i].0->NonLeaf_0.c0 == a.c0 + b.c0 && res[i].0->NonLeaf_0.c1
                == a.c1 + b.c1
        },
        (SummationEntry::Leaf(a), SummationEntry::NonLeaf(b)) => {
            &&& a.c0@.len() > 0 && a.c1@.len() > 0
            &&& sum_fits(a.c0@[0] as int, b.c0 as int)
            &&& sum_fits(a.c1@[0] as int, b.c1 as int)
            &&& res[i].0 is NonLeaf ==> res[i].0->NonLeaf_0.c0 == a.c0@[0] + b.c0 && res[i].0->NonLeaf_0.c1
                == a.c1@[0] + b.c1
        },
        _ => false,
    }
}

/// Every triple from `res[i]` on checks out.
pub open spec fn triples_ok(res: Seq<(SummationEntry, MerkleProof)>, i: int) -> bool
    decreases res.len() - i,
{
    if i >= res.len() || i < 0 {
        true
    } else {
        triple_ok(res, i) && triples_ok(res, i + 3)
    }
}

/// The scan over the leaves `idx..=vinit + s`: each leaf at an even position
/// (modulo `n`) whose sibling is in range has its pair checked against the
/// next parent, from `res[i]` on, and the sibling is skipped; then the
/// triples follow.
pub open spec fn pairs_ok(res: Seq<(SummationEntry, MerkleProof)>, n: int, s: int, vinit: int, i: int, idx: int) -> bool
    decreases (vinit + s + 2 - idx) as nat,
{
    if idx > vinit + s || idx < 0 || n <= 0 {
        triples_ok(res, i)
    } else if (idx % n) % 2 == 0 && idx % n + 1 <= vinit + s {
        pair_ok(res, vinit, i, idx) && pairs_ok(res, n, s, vinit, i + 1, idx + 2)
    } else {
        pairs_ok(res, n, s, vinit, i, idx + 1)
    }
}

/// The participant accepts the answer for one ciphertext: the leaves part,
/// then the pairs and the triples.
pub open spec fn response_ok(res: Seq<(SummationEntry, MerkleProof)>, n: int, s: int, vinit: int) -> bool {
    &&& n > 0
    &&& vinit + s + 2 <= u32::MAX
    &&& 2 * s + 2 <= u32::MAX
    &&& leaves_ok(res, s)
    &&& pairs_ok(res, n, s, vinit, 2 * (s + 1), vinit)
}

/// The participant's check of the server's answer for one ciphertext, where
/// the summation tree has `n` leaves and the sample started at leaf `vinit`
/// with size `s`. Where the checks would stop the participant (a proof that
/// does not validate, a sum that differs or overflows, an entry of the wrong
/// kind or missing) the answer is rejected.
pub fn check_response(res: &Vec<(SummationEntry, MerkleProof)>, n: u32, s: u32, vinit: u32) -> (ok: bool)
    ensures
        ok == response_ok(res@, n as int, s as int, vinit as int),
{
    if n == 0 || vinit as u64 + s as u64 + 2 > u32::MAX as u64 || 2 * (s as u64) + 2 > u32::MAX as u64 {
        return false;
    }
    if 2 * (s as usize) + 1 >= res.len() {
        return false;
    }
    let mut k: u32 = 0;
    while k <= s
        invariant
            2 * s + 1 < res.len(),
            2 * s + 2 <= u32::MAX,
            k <= s + 1,
            forall|i: int| 0 <= i < k ==> proof_ok(#[trigger] res@[2 * i].1),
        decreases s + 1 - k,
    {
        assert(res@[2 * k as int] == res@[2 * (k as usize) as int]);
        if !proof_ok_exec(&res[2 * (k as usize)].1) {
            return false;
        }
        k = k + 1;
    }
    let mut i: usize = 2 * (s as usize + 1);
    let mut idx: u32 = vinit;
    let ghost total = pairs_ok(res@, n as int, s as int, vinit as int, 2 * (s + 1), vinit as int);
    while idx <= vinit + s
        invariant
            n > 0,
            vinit + s + 2 <= u32::MAX,
            2 * s + 2 <= u32::MAX,
            leaves_ok(res@, s as int),
            vinit <= idx <= vinit + s + 2,
            i <= res.len() + 1,
            i >= 2 * (s + 1),
            total == pairs_ok(res@, n as int, s as int, vinit as int, 2 * (s + 1), vinit as int),
            total == pairs_ok(res@, n as int, s as int, vinit as int, i as int, idx as int),
        decreases vinit + s + 2 - idx,
    {
        let ii = idx % n;
        assert(ii & 1u32 == 0 <==> ii % 2 == 0) by (bit_vector);
        if (ii & 1u32) == 0 && ii + 1 <= vinit + s {
            let li = 2 * ((idx - vinit) as usize) + 1;
            let ri = 2 * ((idx - vinit + 1) as usize) + 1;
            if i >= res.len() || ri >= res.len() {
                return false;
            }
            if !proof_ok_exec(&res[i].1) {
                return false;
            }
            let c = match (&res[li].0, &res[ri].0) {
                (SummationEntry::Leaf(a), SummationEntry::Leaf(b)) => {
                    if a.c0.len() == 0 || a.c1.len() == 0 || b.c0.len() == 0 || b.c1.len() == 0 {
                        return false;
                    }
                    let x = a.evaluate_at(0);
                    let y = b.evaluate_at(0);
                    match (x.c0.checked_add(y.c0), x.c1.checked_add(y.c1)) {
                        (Some(c0), Some(c1)) => SummationNonLeaf { c0, c1 },
                        _ => {
                            return false;
                        },
                    }
                },
                _ => {
                    return false;
                },
            };
            match &res[i].0 {
                SummationEntry::NonLeaf(a) => {
                    if c != *a {
                        return false;
                    }
                },
                _ => {},
            }
            i = i + 1;
            idx = idx + 2;
        } else {
            idx = idx + 1;
        }
    }
    let ghost start = i as int;
    assert(total == triples_ok(res@, start));
    while i < res.len()
        invariant
            n > 0,
            vinit + s + 2 <= u32::MAX,
            2 * s + 2 <= u32::MAX,
            leaves_ok(res@, s as int),
            total == pairs_ok(res@, n as int, s as int, vinit as int, 2 * (s + 1), vinit as int),
            i >= start,
            start >= 0,
            total == triples_ok(res@, start),
            total == triples_ok(res@, i as int),
        decreases res.len() - i,
    {
        if res.len() - i <= 2 {
            return false;
        }
        if !proof_ok_exec(&res[i].1) || !proof_ok_exec(&res[i + 1].1) || !proof_ok_exec(&res[i + 2].1) {
            return false;
        }
        let c = match (&res[i + 1].0, &res[i + 2].0) {
            (SummationEntry::NonLeaf(a), SummationEntry::NonLeaf(b)) => {
                match (a.c0.checked_add(b.c0), a.c1.checked_add(b.c1)) {
                    (Some(c0), Some(c1)) => SummationNonLeaf { c0, c1 },
                    _ => {
                        return false;
                    },
                }
            },
            (SummationEntry::Leaf(a), SummationEntry::NonLeaf(b)) => {
                if a.c0.len() == 0 || a.c1.len() == 0 {
                    return false;
                }
                let x = a.evaluate_at(0);
                match (x.c0.checked_add(b.c0), x.c1.checked_add(b.c1)) {
                    (Some(c0), Some(c1)) => SummationNonLeaf { c0, c1 },
                    _ => {
                        return false;
                    },
                }
            },
            _ => {
                return false;
            },
        };
        match &res[i].0 {
            SummationEntry::NonLeaf(a) => {
                if c != *a {
                    return false;
                }
            },
            _ => {},
        }
        i = i + 3;
    }
    true
}

/// The leaves, from `idx` on, whose pairs the participant's scan compares
/// with a parent: each leaf at an even position (modulo `n`) whose sibling
/// lies in the sample, its sibling then skipped.
pub open spec fn checked_pairs(n: int, s: int, vinit: int, idx: int) -> Seq<int>
    decreases (vinit + s + 2 - idx) as nat,
{
    if idx > vinit + s || idx < 0 || n <= 0 {
        Seq::empty()
    } else if (idx % n) % 2 == 0 && idx % n + 1 <= vinit + s {
        seq![idx] + checked_pairs(n, s, vinit, idx + 2)
    } else {
        checked_pairs(n, s, vinit, idx + 1)
    }
}

proof fn lemma_pairs_sound(res: Seq<(SummationEntry, MerkleProof)>, n: int, s: int, vinit: int, i: int, idx: int)
    requires
        pairs_ok(res, n, s, vinit, i, idx),
    ensures
        ({
            let cp = checked_pairs(n, s, vinit, idx);
            &&& forall|p: int|
                0 <= p < cp.len() ==> {
                    let li = 2 * (#[trigger] cp[p] - vinit) + 1;
                    let ri = li + 2;
                    &&& ri < res.len()
                    &&& i + p < res.len()
                    &&& res[li].0 is Leaf
                    &&& res[ri].0 is Leaf
                    &&& res[li].0->Leaf_0.c0@.len() > 0 && res[li].0->Leaf_0.c1@.len() > 0
                    &&& res[ri].0->Leaf_0.c0@.len() > 0 && res[ri].0->Leaf_0.c1@.len() > 0
                    &&& res[i + p].0 is NonLeaf ==> {
                        &&& res[i + p].0->NonLeaf_0.c0 == res[li].0->Leaf_0.c0@[0] + res[ri].0->Leaf_0.c0@[0]
                        &&& res[i + p].0->NonLeaf_0.c1 == res[li].0->Leaf_0.c1@[0] + res[ri].0->Leaf_0.c1@[0]
                    }
                }
            &&& triples_ok(res, i + cp.len())
        }),
    decreases (vinit + s + 2 - idx) as nat,
{
    if idx > vinit + s || idx < 0 || n <= 0 {
    } else if (idx % n) % 2 == 0 && idx % n + 1 <= vinit + s {
        lemma_pairs_sound(res, n, s, vinit, i + 1, idx + 2);
        let rest = checked_pairs(n, s, vinit, idx + 2);
        let cp = checked_pairs(n, s, vinit, idx);
        assert(cp == seq![idx] + rest);
        assert forall|p: int| 1 <= p < cp.len() implies #[trigger] cp[p] == rest[p - 1] by {}
        assert(cp[0] == idx);
        assert(2 * (idx - vinit + 1) + 1 == 2 * (idx - vinit) + 1 + 2);
    } else {
        lemma_pairs_sound(res, n, s, vinit, i, idx + 1);
    }
}

proof fn lemma_triples_sound(res: Seq<(SummationEntry, MerkleProof)>, i: int, t: int)
    requires
        triples_ok(res, i),
        i >= 0,
        i <= t < res.len(),
        (t - i) % 3 == 0,
    ensures
        t + 2 < res.len(),
        match (res[t + 1].0, res[t + 2].0) {
            (SummationEntry::NonLeaf(a), SummationEntry::NonLeaf(b)) => res[t].0 is NonLeaf ==> res[t].0->NonLeaf_0.c0
                == a.c0 + b.c0 && res[t].0->NonLeaf_0.c1 == a.c1 + b.c1,
            (SummationEntry::Leaf(a), SummationEntry::NonLeaf(b)) => a.c0@.len() > 0 && a.c1@.len() > 0 && (
            res[t].0 is NonLeaf ==> res[t].0->NonLeaf_0.c0 == a.c0@[0] + b.c0 && res[t].0->NonLeaf_0.c1 == a.c1@[0]
                + b.c1),
            _ => false,
        },
    decreases t - i,
{
    if t > i {
        assert(triple_ok(res, i) && triples_ok(res, i + 3));
        lemma_triples_sound(res, i + 3, t);
    }
}

/// What an accepted answer guarantees: where the participant's check
/// accepts a row, every proof of the sampled commitments validates, every
/// parent it compares with a pair of sampled leaves (at the positions of
/// `checked_pairs`) holds, where it is a non-leaf, the sums of both first
/// coefficients `c0` and `c1` of those two leaves, and every triple after
/// them (a drawn non-leaf and its two children) holds, where the parent is a
/// non-leaf, the sums of both components of its children. A parent whose
/// `c0` or `c1` differs from these sums makes the check reject.
pub proof fn lemma_accepted_answer_sums(res: Seq<(SummationEntry, MerkleProof)>, n: int, s: int, vinit: int)
    requires
        response_ok(res, n, s, vinit),
        s >= 0,
        vinit >= 0,
    ensures
        ({
            let cp = checked_pairs(n, s, vinit, vinit);
            let base = 2 * (s + 1);
            &&& forall|k: int| 0 <= k <= s ==> proof_ok(#[trigger] res[2 * k].1)
            &&& forall|p: int|
                0 <= p < cp.len() ==> {
                    let li = 2 * (#[trigger] cp[p] - vinit) + 1;
                    let ri = li + 2;
                    &&& ri < res.len()
                    &&& base + p < res.len()
                    &&& res[li].0 is Leaf
                    &&& res[ri].0 is Leaf
                    &&& res[base + p].0 is NonLeaf ==> {
                        &&& res[base + p].0->NonLeaf_0.c0 == res[li].0->Leaf_0.c0@[0] + res[ri].0->Leaf_0.c0@[0]
                        &&& res[base + p].0->NonLeaf_0.c1 == res[li].0->Leaf_0.c1@[0] + res[ri].0->Leaf_0.c1@[0]
                    }
                }
            &&& forall|t: int|
                base + cp.len() <= t < res.len() && (t - base - cp.len()) % 3 == 0 ==> {
                    &&& t + 2 < res.len()
                    &&& match (#[trigger] res[t + 1].0, res[t + 2].0) {
                        (SummationEntry::NonLeaf(a), SummationEntry::NonLeaf(b)) => res[t].0 is NonLeaf
                            ==> res[t].0->NonLeaf_0.c0 == a.c0 + b.c0 && res[t].0->NonLeaf_0.c1 == a.c1 + b.c1,
                        (SummationEntry::Leaf(a), SummationEntry::NonLeaf(b)) => res[t].0 is NonLeaf
                            ==> res[t].0->NonLeaf_0.c0 == a.c0@[0] + b.c0 && res[t].0->NonLeaf_0.c1
                            == a.c1@[0] + b.c1,
                        _ => false,
                    }
                }
        }),
{
    let base = 2 * (s + 1);
    lemma_pairs_sound(res, n, s, vinit, base, vinit);
    let cp = checked_pairs(n, s, vinit, vinit);
    assert forall|t: int| base + cp.len() <= t < res.len() && (t - base - cp.len()) % 3 == 0 implies {
        &&& t + 2 < res.len()
        &&& match (#[trigger] res[t + 1].0, res[t + 2].0) {
            (SummationEntry::NonLeaf(a), SummationEntry::NonLeaf(b)) => res[t].0 is NonLeaf ==> res[t].0->NonLeaf_0.c0
                == a.c0 + b.c0 && res[t].0->NonLeaf_0.c1 == a.c1 + b.c1,
            (SummationEntry::Leaf(a), SummationEntry::NonLeaf(b)) => res[t].0 is NonLeaf ==> res[t].0->NonLeaf_0.c0
                == a.c0@[0] + b.c0 && res[t].0->NonLeaf_0.c1 == a.c1@[0] + b.c1,
            _ => false,
        }
    } by {
        lemma_triples_sound(res, base + cp.len(), t);
    }
}

/// The participant's check of a whole answer, one row per ciphertext, for a
/// sample size of at least one: an empty answer (the server gave up) is let
/// through, and otherwise every row must pass `check_response`.
pub fn check_responses(ret: &Vec<Vec<(SummationEntry, MerkleProof)>>, n: u32, s: u32, vinit: u32) -> (ok: bool)
    requires
        s >= 1,
    ensures
        ok == forall|k: int| 0 <= k < ret.len() ==> response_ok(
            #[trigger] ret@[k]@,
            n as int,
            s as int,
            vinit as int,
        ),
{
    let mut k: usize = 0;
    while k < ret.len()
        invariant
            s >= 1,
            k <= ret.len(),
            forall|j: int| 0 <= j < k ==> response_ok(#[trigger] ret@[j]@, n as int, s as int, vinit as int),
        decreases ret.len() - k,
    {
        if !check_response(&ret[k], n, s, vinit) {
            return false;
        }
        k = k + 1;
    }
    true
}

/// Whether every proof of a list validates, as the participant checks the
/// proofs it gets back after uploading.
pub fn all_proofs_ok(proofs: &Vec<MerkleProof>) -> (ok: bool)
    ensures
        ok == forall|k: int| 0 <= k < proofs.len() ==> proof_ok(#[trigger] proofs@[k]),
{
    let mut k: usize = 0;
    while k < proofs.len()
        invariant
            k <= proofs.len(),
            forall|j: int| 0 <= j < k ==> proof_ok(#[trigger] proofs@[j]),
        decreases proofs.len() - k,
    {
        if !proof_ok_exec(&proofs[k]) {
            return false;
        }
        k = k + 1;
    }
    true
}

/// A copy of a summation-array entry contributes what the entry does.
proof fn lemma_copy_keeps_value(e: SummationEntry, orig: SummationEntry)
    requires
        tr::entry_copy(e, orig),
        !(orig is Commit),
        orig is Leaf ==> tr::usable_leaf(orig),
    ensures
        e is Leaf <==> orig is Leaf,
        e is NonLeaf <==> orig is NonLeaf,
        e is Leaf ==> e->Leaf_0.c0@.len() > 0 && e->Leaf_0.c1@.len() > 0 && e->Leaf_0.c0@[0] as int
            == tr::entry_value(orig, 0) && e->Leaf_0.c1@[0] as int == tr::entry_value(orig, 1),
        e is NonLeaf ==> e == orig,
{
}

/// The participant's first picks for a sample of size 5 from leaf 0 are the
/// parents of the leaf pairs `(0, 1)`, `(2, 3)`, `(4, 5)`.
proof fn lemma_first_picks(n: int)
    requires
        n >= 6,
    ensures
        leaf_pair_picks(n, 5, 0, 0) == seq![n as u32, (n + 1) as u32, (n + 2) as u32],
{
    vstd::arithmetic::div_mod::lemma_small_mod(0, n as nat);
    vstd::arithmetic::div_mod::lemma_small_mod(2, n as nat);
    vstd::arithmetic::div_mod::lemma_small_mod(4, n as nat);
    assert(leaf_pair_picks(n, 5, 0, 6) == Seq::<u32>::empty());
    assert(leaf_pair_picks(n, 5, 0, 4) == seq![(n + 2) as u32]);
    assert(leaf_pair_picks(n, 5, 0, 2) == seq![(n + 1) as u32, (n + 2) as u32]);
}

/// The positions of a summation array of `n` leaves that the answer reads
/// are the asked ones.
proof fn lemma_nonleaf_index_is_id(ms: MsTree, id: int)
    requires
        ms.nr_non_leaf == 2 * ms.nr_real - 1,
        0 <= id < 2 * ms.nr_real - 1,
        id <= u32::MAX,
    ensures
        bs::nonleaf_index(ms, id as u32) == id,
{
    vstd::arithmetic::div_mod::lemma_small_mod(id as nat, (ms.nr_real + ms.nr_non_leaf) as nat);
}

/// The parent of the leaf pair `(2q, 2q + 1)` checks out.
proof fn lemma_pair_checks(row: Seq<(SummationEntry, MerkleProof)>, mc: McTree, ms: MsTree, ids: Seq<u32>, q: int)
    requires
        bs::row_matches(row, mc, ms, 0, ids),
        tr::is_summation_array(ms.summation_array@, ms.nr_real as int),
        ms.nr_real >= 6,
        ms.nr_non_leaf == 2 * ms.nr_real - 1,
        0 <= q < 3,
        q < ids.len(),
        ids[q] == ms.nr_real + q,
    ensures
        pair_ok(row, 0, 12 + q, 2 * q),
{
    let n = ms.nr_real as int;
    let a = ms.summation_array@;
    assert(bs::leaf_slot_matches(row, mc, ms, 0, 2 * q));
    assert(bs::leaf_slot_matches(row, mc, ms, 0, 2 * q + 1));
    assert(((0 + 2 * q) as u32) as int == 2 * q);
    assert(((0 + (2 * q + 1)) as u32) as int == 2 * q + 1);
    assert(bs::leaf_index(ms.nr_real, (2 * q) as u32) == 2 * q);
    assert(bs::leaf_index(ms.nr_real, (2 * q + 1) as u32) == 2 * q + 1);
    assert(tr::usable_leaf(a[2 * q]));
    assert(tr::usable_leaf(a[2 * q + 1]));
    lemma_copy_keeps_value(row[4 * q + 1].0, a[2 * q]);
    assert(row[2 * (2 * q + 1) + 1] == row[4 * q + 3]);
    lemma_copy_keeps_value(row[4 * q + 3].0, a[2 * q + 1]);
    let j = q;
    assert(tr::entry_copy(row[12 + j].0, a[bs::nonleaf_index(ms, ids[j])]) && mk::proof_ok(row[12 + j].1));
    lemma_nonleaf_index_is_id(ms, n + q);
    assert(a[n + q] is NonLeaf);
    lemma_copy_keeps_value(row[12 + q].0, a[n + q]);
}

/// A drawn non-leaf above non-leaves and its two children check out.
proof fn lemma_triple_checks(row: Seq<(SummationEntry, MerkleProof)>, mc: McTree, ms: MsTree, ids: Seq<u32>, j: int)
    requires
        bs::row_matches(row, mc, ms, 0, ids),
        tr::is_summation_array(ms.summation_array@, ms.nr_real as int),
        ms.nr_real >= 6,
        ms.nr_non_leaf == 2 * ms.nr_real - 1,
        0 <= j,
        j + 2 < ids.len(),
        ms.nr_real + ms.nr_real / 2 <= ids[j] < 2 * ms.nr_real - 1,
        ids[j + 1] == (ids[j] - ms.nr_real) * 2,
        ids[j + 2] == (ids[j] - ms.nr_real) * 2 + 1,
    ensures
        triple_ok(row, 12 + j),
{
    let n = ms.nr_real as int;
    let a = ms.summation_array@;
    let id = ids[j] as int;
    let u = id - n;
    assert(tr::entry_copy(row[12 + j].0, a[bs::nonleaf_index(ms, ids[j])]) && mk::proof_ok(row[12 + j].1));
    assert(tr::entry_copy(row[12 + (j + 1)].0, a[bs::nonleaf_index(ms, ids[j + 1])]) && mk::proof_ok(
        row[12 + (j + 1)].1,
    ));
    assert(tr::entry_copy(row[12 + (j + 2)].0, a[bs::nonleaf_index(ms, ids[j + 2])]) && mk::proof_ok(
        row[12 + (j + 2)].1,
    ));
    lemma_nonleaf_index_is_id(ms, id);
    lemma_nonleaf_index_is_id(ms, 2 * u);
    lemma_nonleaf_index_is_id(ms, 2 * u + 1);
    assert(a[n + u] is NonLeaf);
    lemma_copy_keeps_value(row[12 + j].0, a[n + u]);
    assert(a[n + (2 * u + 1 - n)] is NonLeaf);
    lemma_copy_keeps_value(row[12 + j + 2].0, a[2 * u + 1]);
    if 2 * u >= n {
        assert(a[n + (2 * u - n)] is NonLeaf);
    } else {
        assert(tr::usable_leaf(a[2 * u]));
    }
    lemma_copy_keeps_value(row[12 + j + 1].0, a[2 * u]);
}

/// An honest server's answer passes the participant's check. For a
/// summation tree built over exactly its `n` participants (at least six, and
/// few enough for the numbering of its entries to fit `u32`) whose
/// commitment tree is built too, every lookup of an answer from leaf 0 for a
/// sample that `get_random_non_leafs(n, 5, 0)` may draw succeeds (so
/// `verify` answers), and an answer built as `verify` builds it passes
/// `check_response(_, n, 5, 0)`.
pub proof fn lemma_honest_answer_accepted(
    sv: Server,
    k: int,
    ids: Seq<u32>,
    row: Seq<(SummationEntry, MerkleProof)>,
)
    requires
        sv.wf(),
        0 <= k < sv.mc.len(),
        6 <= sv.ms@[k].nr_real <= 0x5555_5555,
        sv.mc@[k].mc is Some,
        sv.ms@[k].ms is Some,
        sv.ms@[k].summation_array.len() == 2 * sv.ms@[k].nr_real - 1,
        non_leaf_sample(sv.ms@[k].nr_real as int, 5, 0, ids),
    ensures
        bs::row_ok(sv.mc@[k], sv.ms@[k], 0, ids),
        bs::row_matches(row, sv.mc@[k], sv.ms@[k], 0, ids) ==> response_ok(row, sv.ms@[k].nr_real as int, 5, 0),
{
    let mc = sv.mc@[k];
    let ms = sv.ms@[k];
    let n = ms.nr_real as int;
    let a = ms.summation_array@;
    assert(mc.nr_real == ms.nr_real);
    assert(ms.leaf_count() == n);
    assert(ms.is_built_over(n));
    assert(tr::is_summation_array(a, n));
    assert(ms.nr_non_leaf == 2 * n - 1);
    assert(mk::merkle_items(ms.ms->0).len() == a.len() + 2 * ms.nr_sybil);
    assert(mc.is_built());
    assert(mk::merkle_items(mc.mc->0).len() >= mc.commit_array.len());
    assert(mc.commit_array.len() >= n);
    lemma_first_picks(n);
    assert(nr_grandparents(5, 0) == 2);
    let first = leaf_pair_picks(n, 5, 0, 0);
    assert(n + n / 2 < 2 * n - 1);
    assert(ids.len() == 12);
    assert(ids.subrange(0, 3) == first);
    assert(ids[0] == n && ids[1] == n + 1 && ids[2] == n + 2) by {
        assert(ids.subrange(0, 3)[0] == ids[0]);
        assert(ids.subrange(0, 3)[1] == ids[1]);
        assert(ids.subrange(0, 3)[2] == ids[2]);
    }
    assert forall|t: int| 0 <= t < 3 implies {
        &&& n + n / 2 <= #[trigger] ids[3 + 3 * t] < 2 * n - 1
        &&& ids[3 + 3 * t + 1] == (ids[3 + 3 * t] - n) * 2
        &&& ids[3 + 3 * t + 2] == (ids[3 + 3 * t] - n) * 2 + 1
    } by {
        assert(ids[first.len() + 3 * t] == ids[3 + 3 * t]);
    }
    assert forall|j: int| 3 <= j < 12 && (j - 3) % 3 == 0 implies {
        &&& n + n / 2 <= #[trigger] ids[j] < 2 * n - 1
        &&& ids[j + 1] == (ids[j] - n) * 2
        &&& ids[j + 2] == (ids[j] - n) * 2 + 1
    } by {
        let t = (j - 3) / 3;
        assert(j == 3 + 3 * t);
        assert(n + n / 2 <= ids[3 + 3 * t] < 2 * n - 1);
    }
    // every asked position lies below 2n - 1
    assert forall|j: int| 0 <= j < ids.len() implies #[trigger] ids[j] < 2 * n - 1 by {
        if j >= 3 {
            let t = (j - 3) / 3;
            assert(0 <= t < 3);
            assert(j == 3 + 3 * t || j == 3 + 3 * t + 1 || j == 3 + 3 * t + 2);
            assert(n + n / 2 <= ids[3 + 3 * t] < 2 * n - 1);
        }
    }
    // the lookups succeed
    assert forall|i: int| 0 <= i < 6 implies #[trigger] bs::leaf_slot_ok(mc, ms, 0, i) by {
        assert(((0 + i) as u32) as int == i);
    }
    assert forall|j: int| 0 <= j < ids.len() implies bs::ms_proof_ok(ms, #[trigger] ids[j]) && bs::nonleaf_lookup_ok(
        ms,
        ids[j],
    ) by {
        lemma_nonleaf_index_is_id(ms, ids[j] as int);
    }
    if bs::row_matches(row, mc, ms, 0, ids) {
        assert(row.len() == 24);
        assert forall|i: int| 0 <= i <= 5 implies proof_ok(#[trigger] row[2 * i].1) by {
            assert(bs::leaf_slot_matches(row, mc, ms, 0, i));
        }
        assert(leaves_ok(row, 5));
        lemma_pair_checks(row, mc, ms, ids, 0);
        lemma_pair_checks(row, mc, ms, ids, 1);
        lemma_pair_checks(row, mc, ms, ids, 2);
        lemma_triple_checks(row, mc, ms, ids, 3);
        lemma_triple_checks(row, mc, ms, ids, 6);
        lemma_triple_checks(row, mc, ms, ids, 9);
        assert(triples_ok(row, 24));
        assert(triples_ok(row, 21));
        assert(triples_ok(row, 18));
        assert(triples_ok(row, 15));
        assert(pairs_ok(row, n, 5, 0, 15, 6));
        vstd::arithmetic::div_mod::lemma_small_mod(4, n as nat);
        vstd::arithmetic::div_mod::lemma_small_mod(2, n as nat);
        vstd::arithmetic::div_mod::lemma_small_mod(0, n as nat);
        assert(pairs_ok(row, n, 5, 0, 14, 4));
        assert(pairs_ok(row, n, 5, 0, 13, 2));
        assert(pairs_ok(row, n, 5, 0, 12, 0));
    }
}

} // verus!
