//! The proof-of-concept summation pipeline: leaves carry ciphertexts as raw
//! little-endian bytes, non-leaves carry the ciphertext evaluated at a fixed
//! point, and all arithmetic is taken with Rust's truncating remainder.
use vstd::prelude::*;
use crate::common::{self as bytes, sha3_256, extend_bytes};
use crate::aggregation::merkle::MerkleProof;
use crate::text;

verus! {

/// Evaluation point used to compress a leaf polynomial into a non-leaf.
pub const RANDOM_POINT: i128 = 10;

/// Prime modulus of the proof-of-concept summation.
pub const MODULUS: i128 = 0xffffee001;

/// Bound on the absolute value of each coefficient that `evaluate_at` accepts:
/// with it every product and sum it forms fits in `i128`.
pub const EVAL_COEFF_BOUND: i128 = 0x400_0000_0000_0000_0000_0000;

/// Rust's `%` on integers with a positive divisor: the remainder takes the
/// sign of the dividend.
pub open spec fn trunc_rem(a: int, m: int) -> int {
    if a >= 0 {
        a % m
    } else {
        -((-a) % m)
    }
}

/// The running `(accumulator, power)` pair after the first `n` steps of
/// `evaluate_at`: `acc' = (acc + p[i] * pow) % M`, `pow' = (pow * x) % M`.
pub open spec fn eval_state(poly: Seq<i128>, x: int, n: int) -> (int, int)
    decreases n,
{
    if n <= 0 {
        (0, 1)
    } else {
        let prev = eval_state(poly, x, n - 1);
        (
            trunc_rem(prev.0 + (poly[n - 1] as int) * prev.1, MODULUS as int),
            trunc_rem(prev.1 * x, MODULUS as int),
        )
    }
}

/// `sum_{i < n} p[i] * x^i` over the integers.
pub open spec fn poly_value(poly: Seq<i128>, x: int, n: int) -> int
    decreases n,
{
    if n <= 0 {
        0
    } else {
        poly_value(poly, x, n - 1) + (poly[n - 1] as int) * vstd::arithmetic::power::pow(
            x,
            (n - 1) as nat,
        )
    }
}

proof fn lemma_trunc_rem(a: int, m: int)
    requires
        m > 0,
    ensures
        (trunc_rem(a, m) - a) % m == 0,
        -m < trunc_rem(a, m) < m,
        a >= 0 ==> 0 <= trunc_rem(a, m),
        a >= 0 ==> trunc_rem(a, m) == a % m,
{
    vstd::arithmetic::div_mod::lemma_fundamental_div_mod(a, m);
    vstd::arithmetic::div_mod::lemma_fundamental_div_mod(-a, m);
    vstd::arithmetic::div_mod::lemma_mod_bound(a, m);
    vstd::arithmetic::div_mod::lemma_mod_bound(-a, m);
    if a >= 0 {
        let q = a / m;
        assert(trunc_rem(a, m) - a == (-q) * m) by (nonlinear_arith)
            requires
                a == m * q + a % m,
                trunc_rem(a, m) == a % m,
        ;
        vstd::arithmetic::div_mod::lemma_mod_multiples_basic(-q, m);
    } else {
        let q = (-a) / m;
        assert(trunc_rem(a, m) - a == q * m) by (nonlinear_arith)
            requires
                -a == m * q + (-a) % m,
                trunc_rem(a, m) == -((-a) % m),
        ;
        vstd::arithmetic::div_mod::lemma_mod_multiples_basic(q, m);
    }
    vstd::arithmetic::div_mod::lemma_small_mod(0, m as nat);
}

proof fn lemma_eval_state(poly: Seq<i128>, x: int, n: int)
    requires
        0 < x < MODULUS,
        0 <= n <= poly.len(),
    ensures
        0 <= eval_state(poly, x, n).1 < MODULUS,
        -MODULUS < eval_state(poly, x, n).0 < MODULUS,
        (eval_state(poly, x, n).1 - vstd::arithmetic::power::pow(x, n as nat)) % (MODULUS as int)
            == 0,
        (eval_state(poly, x, n).0 - poly_value(poly, x, n)) % (MODULUS as int) == 0,
    decreases n,
{
    let m = MODULUS as int;
    if n == 0 {
        assert(vstd::arithmetic::power::pow(x, 0) == 1) by {
            vstd::arithmetic::power::lemma_pow0(x);
        }
        vstd::arithmetic::div_mod::lemma_small_mod(0, m as nat);
    } else {
        lemma_eval_state(poly, x, n - 1);
        let (r, e) = eval_state(poly, x, n - 1);
        let p = poly[n - 1] as int;
        let pw = vstd::arithmetic::power::pow(x, (n - 1) as nat);
        let pv = poly_value(poly, x, n - 1);
        assert(e * x >= 0) by (nonlinear_arith)
            requires
                e >= 0,
                x > 0,
        ;
        lemma_trunc_rem(r + p * e, m);
        lemma_trunc_rem(e * x, m);
        vstd::arithmetic::power::lemma_pow_adds(x, (n - 1) as nat, 1);
        vstd::arithmetic::power::lemma_pow1(x);
        // e == pw (mod m) gives e * x == pw * x and p * e == p * pw (mod m).
        vstd::arithmetic::div_mod::lemma_mod_equivalence(e, pw, m);
        vstd::arithmetic::div_mod::lemma_mod_equivalence(r, pv, m);
        vstd::arithmetic::div_mod::lemma_mul_mod_noop_left(e, x, m);
        vstd::arithmetic::div_mod::lemma_mul_mod_noop_left(pw, x, m);
        vstd::arithmetic::div_mod::lemma_mul_mod_noop_right(p, e, m);
        vstd::arithmetic::div_mod::lemma_mul_mod_noop_right(p, pw, m);
        vstd::arithmetic::div_mod::lemma_add_mod_noop(r, p * e, m);
        vstd::arithmetic::div_mod::lemma_add_mod_noop(pv, p * pw, m);
        vstd::arithmetic::div_mod::lemma_mod_equivalence(e * x, pw * x, m);
        vstd::arithmetic::div_mod::lemma_mod_equivalence(r + p * e, pv + p * pw, m);
        let e2 = trunc_rem(e * x, m);
        let r2 = trunc_rem(r + p * e, m);
        vstd::arithmetic::div_mod::lemma_mod_equivalence(e2, e * x, m);
        vstd::arithmetic::div_mod::lemma_mod_equivalence(r2, r + p * e, m);
        vstd::arithmetic::div_mod::lemma_mod_equivalence(e2, pw * x, m);
        vstd::arithmetic::div_mod::lemma_mod_equivalence(r2, pv + p * pw, m);
        assert(vstd::arithmetic::power::pow(x, n as nat) == pw * x);
        assert(poly_value(poly, x, n) == pv + p * pw);
    }
}

/// Evaluates `poly` at `x` by Horner-free accumulation, reducing every sum and
/// every power with Rust's `%` by `MODULUS`.
pub fn evaluate_at(poly: &[i128], x: i128) -> (ret: i128)
    requires
        0 < x < MODULUS,
        forall|i: int|
            0 <= i < poly@.len() ==> -EVAL_COEFF_BOUND <= #[trigger] poly@[i] <= EVAL_COEFF_BOUND,
    ensures
        ret as int == eval_state(poly@, x as int, poly@.len() as int).0,
        -MODULUS < ret < MODULUS,
        (ret - poly_value(poly@, x as int, poly@.len() as int)) % (MODULUS as int) == 0,
{
    let mut ret: i128 = 0;
    let mut exp: i128 = 1;
    let mut i: usize = 0;
    while i < poly.len()
        invariant
            0 < x < MODULUS,
            i <= poly@.len(),
            forall|k: int|
                0 <= k < poly@.len() ==> -EVAL_COEFF_BOUND <= #[trigger] poly@[k]
                    <= EVAL_COEFF_BOUND,
            (ret as int, exp as int) == eval_state(poly@, x as int, i as int),
        decreases poly@.len() - i,
    {
        proof {
            lemma_eval_state(poly@, x as int, i as int);
            let p = poly@[i as int] as int;
            assert(-EVAL_COEFF_BOUND * MODULUS <= p * (exp as int) <= EVAL_COEFF_BOUND * MODULUS)
                by (nonlinear_arith)
                requires
                    -EVAL_COEFF_BOUND <= p <= EVAL_COEFF_BOUND,
                    0 <= exp < MODULUS,
            ;
            assert(0 <= (exp as int) * (x as int) < MODULUS * MODULUS) by (nonlinear_arith)
                requires
                    0 <= exp < MODULUS,
                    0 < x < MODULUS,
            ;
        }
        let s = ret + poly[i] * exp;
        ret = s.checked_rem(MODULUS).unwrap();
        let t = exp * x;
        exp = t.checked_rem(MODULUS).unwrap();
        i = i + 1;
    }
    proof {
        lemma_eval_state(poly@, x as int, poly@.len() as int);
    }
    ret
}


/// The `k`-th 16-byte little-endian coefficient of `b`.
pub open spec fn chunk(b: Seq<u8>, k: int) -> i128 {
    bytes::i128_from_le_bytes(b.subrange(16 * k, 16 * k + 16))
}

/// `c` holds `n` coefficients whose 16-byte little-endian encodings are
/// those of `vals`.
pub open spec fn encodes(c: Seq<u8>, vals: Seq<i128>, n: int) -> bool {
    &&& c.len() == 16 * n
    &&& vals.len() == n
    &&& forall|k: int|
        0 <= k < n ==> #[trigger] c.subrange(16 * k, 16 * k + 16) == bytes::i128_le_bytes(vals[k])
}

/// Reads the 16-byte little-endian coefficient of `b` at byte offset `off`.
pub fn read_i128_le(b: &[u8], off: usize) -> (x: i128)
    requires
        off + 16 <= b@.len(),
    ensures
        x == bytes::i128_from_le_bytes(b@.subrange(off as int, off + 16)),
{
    let ghost s = b@.subrange(off as int, off + 16);
    assert(s[0] == b@[off as int] && s[1] == b@[off + 1] && s[2] == b@[off + 2] && s[3] == b@[off
        + 3] && s[4] == b@[off + 4] && s[5] == b@[off + 5] && s[6] == b@[off + 6] && s[7] == b@[off
        + 7] && s[8] == b@[off + 8] && s[9] == b@[off + 9] && s[10] == b@[off + 10] && s[11] == b@[off
        + 11] && s[12] == b@[off + 12] && s[13] == b@[off + 13] && s[14] == b@[off + 14] && s[15]
        == b@[off + 15]);
    (b[off] as u128 | (b[off + 1] as u128) << 8u128 | (b[off + 2] as u128) << 16u128 | (b[off
        + 3] as u128) << 24u128 | (b[off + 4] as u128) << 32u128 | (b[off + 5] as u128) << 40u128
        | (b[off + 6] as u128) << 48u128 | (b[off + 7] as u128) << 56u128 | (b[off + 8] as u128)
        << 64u128 | (b[off + 9] as u128) << 72u128 | (b[off + 10] as u128) << 80u128 | (b[off
        + 11] as u128) << 88u128 | (b[off + 12] as u128) << 96u128 | (b[off + 13] as u128)
        << 104u128 | (b[off + 14] as u128) << 112u128 | (b[off + 15] as u128) << 120u128) as i128
}

/// Encodes `vals` (the first `4096`) as 16-byte little-endian coefficients.
fn encode_coefficients(vals: &Vec<i128>) -> (c: [u8; 65536])
    requires
        vals.len() == 4096,
    ensures
        encodes(c@, vals@, 4096),
{
    let mut c = [0u8; 65536];
    let mut k: usize = 0;
    while k < 4096
        invariant
            k <= 4096,
            vals.len() == 4096,
            forall|j: int|
                0 <= j < k ==> #[trigger] c@.subrange(16 * j, 16 * j + 16) == bytes::i128_le_bytes(
                    vals@[j],
                ),
        decreases 4096 - k,
    {
        let x = vals[k];
        let u = x as u128;
        let ghost before = c@;
        let mut b: u128 = 0;
        while b < 16
            invariant
                b <= 16,
                k < 4096,
                u == x as u128,
                c@.len() == 65536,
                forall|t: int| 0 <= t < 16 * k ==> c@[t] == before[t],
                forall|t: int| 0 <= t < b ==> #[trigger] c@[16 * k + t] == bytes::i128_le_byte(x, t),
            decreases 16 - b,
        {
            let byte = (u >> (8 * b)) as u8;
            assert(byte == bytes::i128_le_byte(x, b as int));
            c[16 * k + b as usize] = byte;
            b = b + 1;
        }
        proof {
            assert forall|j: int| 0 <= j < k + 1 implies #[trigger] c@.subrange(16 * j, 16 * j + 16)
                == bytes::i128_le_bytes(vals@[j]) by {
                if j < k {
                    assert(c@.subrange(16 * j, 16 * j + 16) =~= before.subrange(16 * j, 16 * j + 16));
                } else {
                    assert forall|t: int| 0 <= t < 16 implies #[trigger] c@.subrange(
                        16 * j,
                        16 * j + 16,
                    )[t] == bytes::i128_le_bytes(vals@[j])[t] by {
                        assert(c@[16 * k + t] == bytes::i128_le_byte(x, t));
                    }
                    assert(c@.subrange(16 * j, 16 * j + 16) =~= bytes::i128_le_bytes(vals@[j]));
                }
            }
        }
        k = k + 1;
    }
    c
}

/// Decodes the 4096 coefficients of `c`, each reduced with Rust's `%` by
/// `MODULUS`.
fn decode_reduced(c: &[u8; 65536]) -> (v: Vec<i128>)
    ensures
        v.len() == 4096,
        forall|k: int|
            0 <= k < 4096 ==> #[trigger] v@[k] as int == trunc_rem(chunk(c@, k) as int, MODULUS as int),
{
    let mut v: Vec<i128> = Vec::new();
    let mut k: usize = 0;
    while k < 4096
        invariant
            k <= 4096,
            v.len() == k,
            forall|j: int|
                0 <= j < k ==> #[trigger] v@[j] as int == trunc_rem(chunk(c@, j) as int, MODULUS as int),
        decreases 4096 - k,
    {
        let x = read_i128_le(c.as_slice(), 16 * k);
        proof {
            lemma_trunc_rem(x as int, MODULUS as int);
        }
        let r = x.checked_rem(MODULUS).unwrap();
        v.push(r);
        k = k + 1;
    }
    v
}

/// Decodes the 4096 coefficients of `c` without reduction.
fn decode_coefficients(c: &[u8; 65536]) -> (v: Vec<i128>)
    ensures
        v.len() == 4096,
        forall|k: int| 0 <= k < 4096 ==> #[trigger] v@[k] == chunk(c@, k),
{
    let mut v: Vec<i128> = Vec::new();
    let mut k: usize = 0;
    while k < 4096
        invariant
            k <= 4096,
            v.len() == k,
            forall|j: int| 0 <= j < k ==> #[trigger] v@[j] == chunk(c@, j),
        decreases 4096 - k,
    {
        v.push(read_i128_le(c.as_slice(), 16 * k));
        k = k + 1;
    }
    v
}

/// A commitment to a leaf: the hash of its public key, ciphertext and nonce.
#[derive(Clone, Copy)]
pub struct CommitEntry {
    pub hash: [u8; 32],
}

impl CommitEntry {
    /// SHA3-256 of `pk || c0 || c1 || r`.
    pub fn new(pk: &[u8; 451], c0: &[u8; 65536], c1: &[u8; 65536], r: &[u8; 16]) -> (e: Self)
        ensures
            e.hash@ == bytes::sha3_256_digest(pk@ + c0@ + c1@ + r@),
    {
        let mut buf: Vec<u8> = Vec::new();
        extend_bytes(&mut buf, pk.as_slice());
        extend_bytes(&mut buf, c0.as_slice());
        extend_bytes(&mut buf, c1.as_slice());
        extend_bytes(&mut buf, r.as_slice());
        assert(buf@ =~= pk@ + c0@ + c1@ + r@);
        CommitEntry { hash: sha3_256(buf.as_slice()) }
    }
}

/// A leaf of the summation tree: a public key, the two ciphertext
/// polynomials as 4096 little-endian 16-byte coefficients each, and a nonce.
#[derive(Clone, Copy)]
pub struct SummationLeaf {
    pub pk: [u8; 451],
    pub c0: [u8; 65536],
    pub c1: [u8; 65536],
    pub r: [u8; 16],
}

/// `rand::random::<u32>()`: a value drawn by the thread-local generator of
/// the `rand` crate; any `u32` may come back.
#[verifier::external_body]
fn random_u32() -> u32 {
    rand::random::<u32>()
}

/// The coefficients of a summed leaf: both summands reduced by `MODULUS`,
/// added, and reduced again.
pub open spec fn leaf_sum_coefficient(a: Seq<u8>, b: Seq<u8>, k: int) -> int {
    trunc_rem(
        trunc_rem(chunk(a, k) as int, MODULUS as int) + trunc_rem(chunk(b, k) as int, MODULUS as int),
        MODULUS as int,
    )
}

impl SummationLeaf {
    /// The leaf whose every byte is zero.
    pub fn zero() -> (l: Self)
        ensures
            forall|k: int| 0 <= k < 451 ==> #[trigger] l.pk@[k] == 0,
            forall|k: int| 0 <= k < 65536 ==> #[trigger] l.c0@[k] == 0,
            forall|k: int| 0 <= k < 65536 ==> #[trigger] l.c1@[k] == 0,
            forall|k: int| 0 <= k < 16 ==> #[trigger] l.r@[k] == 0,
    {
        SummationLeaf { pk: [0u8; 451], c0: [0u8; 65536], c1: [0u8; 65536], r: [0u8; 16] }
    }

    /// A leaf with zero key and nonce and random ciphertext coefficients in
    /// `[0, 2^32)`.
    pub fn new() -> (l: Self)
        ensures
            forall|k: int| 0 <= k < 451 ==> #[trigger] l.pk@[k] == 0,
            forall|k: int| 0 <= k < 16 ==> #[trigger] l.r@[k] == 0,
            forall|k: int| 0 <= k < 4096 ==> 0 <= #[trigger] chunk(l.c0@, k) < 0x1_0000_0000,
            forall|k: int| 0 <= k < 4096 ==> 0 <= #[trigger] chunk(l.c1@, k) < 0x1_0000_0000,
    {
        let mut v0: Vec<i128> = Vec::new();
        let mut v1: Vec<i128> = Vec::new();
        let mut i: usize = 0;
        while i < 4096
            invariant
                i <= 4096,
                v0.len() == i,
                v1.len() == 0,
                forall|k: int| 0 <= k < i ==> 0 <= #[trigger] v0@[k] < 0x1_0000_0000,
            decreases 4096 - i,
        {
            v0.push(random_u32() as i128);
            i = i + 1;
        }
        let mut j: usize = 0;
        let ghost fixed0 = v0@;
        while j < 4096
            invariant
                j <= 4096,
                v0@ == fixed0,
                v0.len() == 4096,
                v1.len() == j,
                forall|k: int| 0 <= k < 4096 ==> 0 <= #[trigger] v0@[k] < 0x1_0000_0000,
                forall|k: int| 0 <= k < j ==> 0 <= #[trigger] v1@[k] < 0x1_0000_0000,
            decreases 4096 - j,
        {
            v1.push(random_u32() as i128);
            j = j + 1;
        }
        let c0 = encode_coefficients(&v0);
        let c1 = encode_coefficients(&v1);
        proof {
            assert forall|k: int| 0 <= k < 4096 implies 0 <= #[trigger] chunk(c0@, k) < 0x1_0000_0000
                by {
                assert(c0@.subrange(16 * k, 16 * k + 16) == bytes::i128_le_bytes(v0@[k]));
                bytes::lemma_i128_le_bytes_roundtrip(v0@[k]);
            }
            assert forall|k: int| 0 <= k < 4096 implies 0 <= #[trigger] chunk(c1@, k) < 0x1_0000_0000
                by {
                assert(c1@.subrange(16 * k, 16 * k + 16) == bytes::i128_le_bytes(v1@[k]));
                bytes::lemma_i128_le_bytes_roundtrip(v1@[k]);
            }
        }
        SummationLeaf { pk: [0u8; 451], c0, c1, r: [0u8; 16] }
    }

    /// A leaf with zero key and nonce whose ciphertext coefficients are
    /// encoded from `c0` and `c1`.
    pub fn new_with_poly(c0: &[i128; 4096], c1: &[i128; 4096]) -> (l: Self)
        ensures
            forall|k: int| 0 <= k < 451 ==> #[trigger] l.pk@[k] == 0,
            forall|k: int| 0 <= k < 16 ==> #[trigger] l.r@[k] == 0,
            encodes(l.c0@, c0@, 4096),
            encodes(l.c1@, c1@, 4096),
            forall|k: int| 0 <= k < 4096 ==> #[trigger] chunk(l.c0@, k) == c0@[k] && chunk(l.c1@, k)
                == c1@[k],
    {
        let v0 = array_to_vec(c0);
        let v1 = array_to_vec(c1);
        let e0 = encode_coefficients(&v0);
        let e1 = encode_coefficients(&v1);
        proof {
            assert forall|k: int| 0 <= k < 4096 implies #[trigger] chunk(e0@, k) == c0@[k] && chunk(
                e1@,
                k,
            ) == c1@[k] by {
                assert(e0@.subrange(16 * k, 16 * k + 16) == bytes::i128_le_bytes(v0@[k]));
                assert(e1@.subrange(16 * k, 16 * k + 16) == bytes::i128_le_bytes(v1@[k]));
                bytes::lemma_i128_le_bytes_roundtrip(v0@[k]);
                bytes::lemma_i128_le_bytes_roundtrip(v1@[k]);
            }
        }
        SummationLeaf { pk: [0u8; 451], r: [0u8; 16], c0: e0, c1: e1 }
    }

    /// SHA3-256 of `pk || c0 || c1 || r`.
    pub fn hash(&self) -> (h: [u8; 32])
        ensures
            h@ == bytes::sha3_256_digest(self.pk@ + self.c0@ + self.c1@ + self.r@),
    {
        let mut buf: Vec<u8> = Vec::new();
        extend_bytes(&mut buf, self.pk.as_slice());
        extend_bytes(&mut buf, self.c0.as_slice());
        extend_bytes(&mut buf, self.c1.as_slice());
        extend_bytes(&mut buf, self.r.as_slice());
        assert(buf@ =~= self.pk@ + self.c0@ + self.c1@ + self.r@);
        sha3_256(buf.as_slice())
    }

    /// The two ciphertext polynomials, decoded coefficient by coefficient.
    pub fn coefficients(&self) -> (res: (Vec<i128>, Vec<i128>))
        ensures
            res.0.len() == 4096,
            res.1.len() == 4096,
            forall|k: int|
                0 <= k < 4096 ==> #[trigger] res.0@[k] == chunk(self.c0@, k) && res.1@[k] == chunk(
                    self.c1@,
                    k,
                ),
    {
        (decode_coefficients(&self.c0), decode_coefficients(&self.c1))
    }

    /// Coefficient-wise sum of two leaves: each coefficient of both summands
    /// is reduced with `%` by `MODULUS`, the two are added and the sum is
    /// reduced again; key and nonce are taken from `self`.
    pub fn add(self, other: Self) -> (res: Self)
        ensures
            res.pk == self.pk,
            res.r == self.r,
            forall|k: int|
                0 <= k < 4096 ==> #[trigger] chunk(res.c0@, k) as int == leaf_sum_coefficient(
                    self.c0@,
                    other.c0@,
                    k,
                ) && chunk(res.c1@, k) as int == leaf_sum_coefficient(self.c1@, other.c1@, k),
    {
        let l0 = decode_reduced(&self.c0);
        let l1 = decode_reduced(&self.c1);
        let r0 = decode_reduced(&other.c0);
        let r1 = decode_reduced(&other.c1);
        let mut s0: Vec<i128> = Vec::new();
        let mut s1: Vec<i128> = Vec::new();
        let mut k: usize = 0;
        while k < 4096
            invariant
                k <= 4096,
                l0.len() == 4096,
                l1.len() == 4096,
                r0.len() == 4096,
                r1.len() == 4096,
                s0.len() == k,
                s1.len() == k,
                forall|j: int|
                    0 <= j < 4096 ==> #[trigger] l0@[j] as int == trunc_rem(
                        chunk(self.c0@, j) as int,
                        MODULUS as int,
                    ),
                forall|j: int|
                    0 <= j < 4096 ==> #[trigger] l1@[j] as int == trunc_rem(
                        chunk(self.c1@, j) as int,
                        MODULUS as int,
                    ),
                forall|j: int|
                    0 <= j < 4096 ==> #[trigger] r0@[j] as int == trunc_rem(
                        chunk(other.c0@, j) as int,
                        MODULUS as int,
                    ),
                forall|j: int|
                    0 <= j < 4096 ==> #[trigger] r1@[j] as int == trunc_rem(
                        chunk(other.c1@, j) as int,
                        MODULUS as int,
                    ),
                forall|j: int|
                    0 <= j < k ==> #[trigger] s0@[j] as int == leaf_sum_coefficient(
                        self.c0@,
                        other.c0@,
                        j,
                    ),
                forall|j: int|
                    0 <= j < k ==> #[trigger] s1@[j] as int == leaf_sum_coefficient(
                        self.c1@,
                        other.c1@,
                        j,
                    ),
            decreases 4096 - k,
        {
            proof {
                lemma_trunc_rem(chunk(self.c0@, k as int) as int, MODULUS as int);
                lemma_trunc_rem(chunk(self.c1@, k as int) as int, MODULUS as int);
                lemma_trunc_rem(chunk(other.c0@, k as int) as int, MODULUS as int);
                lemma_trunc_rem(chunk(other.c1@, k as int) as int, MODULUS as int);
            }
            let a = l0[k] + r0[k];
            let b = l1[k] + r1[k];
            s0.push(a.checked_rem(MODULUS).unwrap());
            s1.push(b.checked_rem(MODULUS).unwrap());
            k = k + 1;
        }
        let c0 = encode_coefficients(&s0);
        let c1 = encode_coefficients(&s1);
        proof {
            assert forall|j: int| 0 <= j < 4096 implies #[trigger] chunk(c0@, j) as int
                == leaf_sum_coefficient(self.c0@, other.c0@, j) && chunk(c1@, j) as int
                == leaf_sum_coefficient(self.c1@, other.c1@, j) by {
                assert(c0@.subrange(16 * j, 16 * j + 16) == bytes::i128_le_bytes(s0@[j]));
                assert(c1@.subrange(16 * j, 16 * j + 16) == bytes::i128_le_bytes(s1@[j]));
                bytes::lemma_i128_le_bytes_roundtrip(s0@[j]);
                bytes::lemma_i128_le_bytes_roundtrip(s1@[j]);
            }
        }
        SummationLeaf { pk: self.pk, c0, c1, r: self.r }
    }
}

fn array_to_vec(a: &[i128; 4096]) -> (v: Vec<i128>)
    ensures
        v@ == a@,
{
    let mut v: Vec<i128> = Vec::new();
    let mut k: usize = 0;
    while k < 4096
        invariant
            k <= 4096,
            v@ == a@.subrange(0, k as int),
        decreases 4096 - k,
    {
        v.push(a[k]);
        k = k + 1;
        assert(v@ =~= a@.subrange(0, k as int));
    }
    assert(a@.subrange(0, 4096) =~= a@);
    v
}

/// A non-leaf of the summation tree: two 16-byte little-endian values.
#[derive(Clone, Copy)]
pub struct SummationNonLeaf {
    pub c0: [u8; 16],
    pub c1: [u8; 16],
}

/// Encodes `x` as 16 little-endian bytes.
fn to_le_array(x: i128) -> (b: [u8; 16])
    ensures
        b@ == bytes::i128_le_bytes(x),
{
    let u = x as u128;
    let mut b = [0u8; 16];
    let mut k: u128 = 0;
    while k < 16
        invariant
            k <= 16,
            u == x as u128,
            forall|t: int| 0 <= t < k ==> #[trigger] b@[t] == bytes::i128_le_byte(x, t),
        decreases 16 - k,
    {
        let byte = (u >> (8 * k)) as u8;
        assert(byte == bytes::i128_le_byte(x, k as int));
        b[k as usize] = byte;
        k = k + 1;
    }
    assert(b@ =~= bytes::i128_le_bytes(x));
    b
}

/// The 16 bytes that compress a leaf's coefficient bytes `c`: the value at
/// `RANDOM_POINT`, modulo `MODULUS`, of its reduced coefficients.
pub open spec fn compressed_bytes(c: Seq<u8>) -> Seq<u8> {
    bytes::i128_le_bytes(eval_state(reduced_poly(c), RANDOM_POINT as int, 4096).0 as i128)
}

/// The 16 bytes of the sum of two non-leaf values, reduced with `%` by
/// `MODULUS`.
pub open spec fn nonleaf_sum_bytes(x: Seq<u8>, y: Seq<u8>) -> Seq<u8> {
    bytes::i128_le_bytes(
        trunc_rem(bytes::i128_from_le_bytes(x) as int + bytes::i128_from_le_bytes(y) as int, MODULUS as int) as i128,
    )
}

impl SummationNonLeaf {
    /// The non-leaf holding two zeros.
    pub fn new() -> (n: Self)
        ensures
            forall|k: int| 0 <= k < 16 ==> #[trigger] n.c0@[k] == 0 && n.c1@[k] == 0,
            bytes::i128_from_le_bytes(n.c0@) == 0,
            bytes::i128_from_le_bytes(n.c1@) == 0,
    {
        let n = SummationNonLeaf { c0: [0u8; 16], c1: [0u8; 16] };
        proof {
            assert forall|t: int| 0 <= t < 16 implies #[trigger] bytes::i128_le_byte(0, t) == 0 by {
                let sh = (8 * t) as u128;
                assert((0u128 >> sh) as u8 == 0) by (bit_vector);
            }
            assert(n.c0@ =~= bytes::i128_le_bytes(0));
            assert(n.c1@ =~= bytes::i128_le_bytes(0));
            bytes::lemma_i128_le_bytes_roundtrip(0);
        }
        n
    }

    /// SHA3-256 of `c0 || c1`.
    pub fn hash(&self) -> (h: [u8; 32])
        ensures
            h@ == bytes::sha3_256_digest(self.c0@ + self.c1@),
    {
        let mut buf: Vec<u8> = Vec::new();
        extend_bytes(&mut buf, self.c0.as_slice());
        extend_bytes(&mut buf, self.c1.as_slice());
        assert(buf@ =~= self.c0@ + self.c1@);
        sha3_256(buf.as_slice())
    }

    /// Adds the two values component-wise and reduces each sum with `%` by
    /// `MODULUS`.
    pub fn add(self, other: Self) -> (res: Self)
        requires
            i128::MIN <= bytes::i128_from_le_bytes(self.c0@) as int + bytes::i128_from_le_bytes(
                other.c0@,
            ) as int <= i128::MAX,
            i128::MIN <= bytes::i128_from_le_bytes(self.c1@) as int + bytes::i128_from_le_bytes(
                other.c1@,
            ) as int <= i128::MAX,
        ensures
            bytes::i128_from_le_bytes(res.c0@) as int == trunc_rem(
                bytes::i128_from_le_bytes(self.c0@) as int + bytes::i128_from_le_bytes(other.c0@) as int,
                MODULUS as int,
            ),
            bytes::i128_from_le_bytes(res.c1@) as int == trunc_rem(
                bytes::i128_from_le_bytes(self.c1@) as int + bytes::i128_from_le_bytes(other.c1@) as int,
                MODULUS as int,
            ),
            res.c0@ == nonleaf_sum_bytes(self.c0@, other.c0@),
            res.c1@ == nonleaf_sum_bytes(self.c1@, other.c1@),
    {
        let a0 = read_i128_le(self.c0.as_slice(), 0);
        let a1 = read_i128_le(self.c1.as_slice(), 0);
        let b0 = read_i128_le(other.c0.as_slice(), 0);
        let b1 = read_i128_le(other.c1.as_slice(), 0);
        assert(self.c0@.subrange(0, 16) =~= self.c0@);
        assert(self.c1@.subrange(0, 16) =~= self.c1@);
        assert(other.c0@.subrange(0, 16) =~= other.c0@);
        assert(other.c1@.subrange(0, 16) =~= other.c1@);
        proof {
            lemma_trunc_rem(a0 + b0, MODULUS as int);
            lemma_trunc_rem(a1 + b1, MODULUS as int);
        }
        let s0 = a0 + b0;
        let s1 = a1 + b1;
        let v0 = s0.checked_rem(MODULUS).unwrap();
        let v1 = s1.checked_rem(MODULUS).unwrap();
        let res = SummationNonLeaf { c0: to_le_array(v0), c1: to_le_array(v1) };
        proof {
            bytes::lemma_i128_le_bytes_roundtrip(v0);
            bytes::lemma_i128_le_bytes_roundtrip(v1);
        }
        res
    }

    /// Compresses a leaf: both polynomials, reduced coefficient-wise with `%`
    /// by `MODULUS`, are evaluated at `RANDOM_POINT`.
    pub fn from_leaf(leaf: SummationLeaf) -> (n: Self)
        ensures
            bytes::i128_from_le_bytes(n.c0@) as int == eval_state(
                reduced_poly(leaf.c0@),
                RANDOM_POINT as int,
                4096,
            ).0,
            bytes::i128_from_le_bytes(n.c1@) as int == eval_state(
                reduced_poly(leaf.c1@),
                RANDOM_POINT as int,
                4096,
            ).0,
            n.c0@ == compressed_bytes(leaf.c0@),
            n.c1@ == compressed_bytes(leaf.c1@),
    {
        let poly0 = decode_reduced(&leaf.c0);
        let poly1 = decode_reduced(&leaf.c1);
        proof {
            assert forall|k: int| 0 <= k < 4096 implies #[trigger] poly0@[k] == reduced_poly(leaf.c0@)[k]
                && poly1@[k] == reduced_poly(leaf.c1@)[k] by {}
            assert(poly0@ =~= reduced_poly(leaf.c0@));
            assert(poly1@ =~= reduced_poly(leaf.c1@));
            assert forall|i: int| 0 <= i < poly0@.len() implies -EVAL_COEFF_BOUND <= #[trigger] poly0@[i]
                <= EVAL_COEFF_BOUND by {
                lemma_trunc_rem(chunk(leaf.c0@, i) as int, MODULUS as int);
            }
            assert forall|i: int| 0 <= i < poly1@.len() implies -EVAL_COEFF_BOUND <= #[trigger] poly1@[i]
                <= EVAL_COEFF_BOUND by {
                lemma_trunc_rem(chunk(leaf.c1@, i) as int, MODULUS as int);
            }
        }
        let c0 = evaluate_at(poly0.as_slice(), RANDOM_POINT);
        let c1 = evaluate_at(poly1.as_slice(), RANDOM_POINT);
        proof {
            bytes::lemma_i128_le_bytes_roundtrip(c0);
            bytes::lemma_i128_le_bytes_roundtrip(c1);
        }
        SummationNonLeaf { c0: to_le_array(c0), c1: to_le_array(c1) }
    }
}

/// The 4096 coefficients of `c`, each reduced with Rust's `%` by `MODULUS`.
pub open spec fn reduced_poly(c: Seq<u8>) -> Seq<i128> {
    Seq::new(4096, |k: int| trunc_rem(chunk(c, k) as int, MODULUS as int) as i128)
}

/// The commitment of a leaf's fields is the leaf's own hash.
pub proof fn lemma_commit_matches_leaf_hash(leaf: SummationLeaf, e: CommitEntry, h: Seq<u8>)
    requires
        e.hash@ == bytes::sha3_256_digest(leaf.pk@ + leaf.c0@ + leaf.c1@ + leaf.r@),
        h == bytes::sha3_256_digest(leaf.pk@ + leaf.c0@ + leaf.c1@ + leaf.r@),
    ensures
        e.hash@ == h,
{
}

/// What the proof reader holds: the hashes read so far, the path, the hash
/// being filled and how many of its bytes are in.
pub type ReadState = (Seq<Seq<u8>>, Seq<bool>, Seq<u8>, int);

/// The reader before any piece.
pub open spec fn read_init() -> ReadState {
    (Seq::empty(), Seq::empty(), Seq::new(32, |i: int| 0u8), 0)
}

/// The text `true`.
pub open spec fn word_true() -> Seq<u8> {
    seq![116u8, 114u8, 117u8, 101u8]
}

/// The text `false`.
pub open spec fn word_false() -> Seq<u8> {
    seq![102u8, 97u8, 108u8, 115u8, 101u8]
}

/// One piece of a printed proof: a decimal byte goes into the hash being
/// filled, which is complete after 32 bytes; `true` and `false`, white space
/// around them trimmed, extend the path; anything else is skipped.
pub open spec fn read_piece(st: ReadState, piece: Seq<u8>) -> ReadState {
    match text::decimal_u8(piece) {
        Some(t) => {
            let tmp = st.2.update(st.3, t);
            if st.3 + 1 == 32 {
                (st.0.push(tmp), st.1, tmp, 0)
            } else {
                (st.0, st.1, tmp, st.3 + 1)
            }
        },
        None => {
            if text::trimmed(piece) == word_true() {
                (st.0, st.1.push(true), st.2, st.3)
            } else if text::trimmed(piece) == word_false() {
                (st.0, st.1.push(false), st.2, st.3)
            } else {
                st
            }
        },
    }
}

/// The reader after the first `k` pieces.
pub open spec fn read_pieces(pieces: Seq<Seq<u8>>, k: int) -> ReadState
    decreases k,
{
    if k <= 0 {
        read_init()
    } else {
        read_piece(read_pieces(pieces, k - 1), pieces[k - 1])
    }
}

/// The merkle proof that the printed text `s` describes, `(lemma, path)`:
/// `None` where it has at most two hashes or a path whose length is not
/// two less, which `merkle_light`'s `Proof::new` refuses.
pub open spec fn proof_text(s: Seq<u8>) -> Option<(Seq<Seq<u8>>, Seq<bool>)> {
    let pieces = text::split_seps(s);
    let st = read_pieces(pieces, pieces.len() as int);
    if st.0.len() > 2 && st.1.len() == st.0.len() - 2 {
        Some((st.0, st.1))
    } else {
        None
    }
}

/// Whether `p[a..b]` is `w`.
fn slice_is(p: &Vec<u8>, a: usize, b: usize, w: &[u8]) -> (r: bool)
    requires
        a <= b <= p.len(),
    ensures
        r == (p@.subrange(a as int, b as int) == w@),
{
    if b - a != w.len() {
        return false;
    }
    let mut k: usize = 0;
    while k < w.len()
        invariant
            a <= b <= p.len(),
            b - a == w.len(),
            k <= w.len(),
            forall|t: int| 0 <= t < k ==> p@[a + t] == w@[t],
        decreases w.len() - k,
    {
        if p[a + k] != w[k] {
            assert(p@.subrange(a as int, b as int)[k as int] != w@[k as int]);
            return false;
        }
        k = k + 1;
    }
    assert(p@.subrange(a as int, b as int) =~= w@);
    true
}

/// Reads a merkle proof back from its printed form (`Proof { lemma: [[..],
/// ..], path: [..] }`): every decimal byte between the separators `[`,
/// space, `,` and `]` fills the hashes 32 bytes at a time, and every `true`
/// or `false` extends the path. `None` where the proof has at most two hashes
/// or a path that is not two shorter than them.
pub fn construct_from_string(s: &[u8]) -> (r: Option<MerkleProof>)
    ensures
        r is Some <==> proof_text(s@) is Some,
        r is Some ==> proof_text(s@) == Some((r->0.lemma@.map_values(|h: [u8; 32]| h@), r->0.path@)),
{
    let pieces = text::split_seps_exec(s);
    let ghost pv = pieces@.map_values(|v: Vec<u8>| v@);
    let w_true: [u8; 4] = [116u8, 114u8, 117u8, 101u8];
    let w_false: [u8; 5] = [102u8, 97u8, 108u8, 115u8, 101u8];
    assert(w_true@ =~= word_true());
    assert(w_false@ =~= word_false());
    let mut hash: Vec<[u8; 32]> = Vec::new();
    let mut path: Vec<bool> = Vec::new();
    let mut tmp: [u8; 32] = [0u8; 32];
    let mut idx: usize = 0;
    assert(tmp@ =~= Seq::new(32, |i: int| 0u8));
    assert(hash@.map_values(|h: [u8; 32]| h@) =~= Seq::<Seq<u8>>::empty());
    let mut i: usize = 0;
    while i < pieces.len()
        invariant
            pv == pieces@.map_values(|v: Vec<u8>| v@),
            pv == text::split_seps(s@),
            w_true@ == word_true(),
            w_false@ == word_false(),
            i <= pieces.len(),
            idx < 32,
            (hash@.map_values(|h: [u8; 32]| h@), path@, tmp@, idx as int) == read_pieces(pv, i as int),
        decreases pieces.len() - i,
    {
        let piece = &pieces[i];
        assert(pv[i as int] == piece@);
        let ghost st = read_pieces(pv, i as int);
        match text::parse_u8(piece.as_slice()) {
            Some(t) => {
                tmp[idx] = t;
                if idx + 1 == 32 {
                    let ghost before = hash@.map_values(|h: [u8; 32]| h@);
                    hash.push(tmp);
                    assert(hash@.map_values(|h: [u8; 32]| h@) =~= before.push(tmp@));
                    idx = 0;
                } else {
                    idx = idx + 1;
                }
            },
            None => {
                let (a, b) = text::trim_bounds(piece.as_slice());
                if slice_is(piece, a, b, &w_true) {
                    path.push(true);
                } else if slice_is(piece, a, b, &w_false) {
                    path.push(false);
                }
            },
        }
        i = i + 1;
    }
    if hash.len() > 2 && path.len() == hash.len() - 2 {
        Some(MerkleProof { lemma: hash, path })
    } else {
        None
    }
}

/// With non-negative coefficients every accumulator of `evaluate_at` is
/// non-negative, so it is the value of the polynomial modulo `MODULUS`.
proof fn lemma_eval_is_value_mod(poly: Seq<i128>, x: int, n: int)
    requires
        0 < x < MODULUS,
        0 <= n <= poly.len(),
        forall|k: int| 0 <= k < n ==> #[trigger] poly[k] >= 0,
    ensures
        eval_state(poly, x, n).0 == poly_value(poly, x, n) % (MODULUS as int),
        0 <= eval_state(poly, x, n).0,
    decreases n,
{
    let m = MODULUS as int;
    lemma_eval_state(poly, x, n);
    if n > 0 {
        lemma_eval_is_value_mod(poly, x, n - 1);
        lemma_eval_state(poly, x, n - 1);
        let (r, e) = eval_state(poly, x, n - 1);
        let p = poly[n - 1] as int;
        assert(p * e >= 0) by (nonlinear_arith)
            requires
                p >= 0,
                e >= 0,
        ;
        lemma_trunc_rem(r + p * e, m);
    }
    let ev = eval_state(poly, x, n).0;
    let pv = poly_value(poly, x, n);
    vstd::arithmetic::div_mod::lemma_mod_equivalence(ev, pv, m);
    vstd::arithmetic::div_mod::lemma_small_mod(ev as nat, m as nat);
}

/// Where every coefficient of `p` agrees modulo `MODULUS` with the sum of
/// those of `q` and `r`, so do the values of the polynomials.
proof fn lemma_poly_value_adds(p: Seq<i128>, q: Seq<i128>, r: Seq<i128>, x: int, n: int)
    requires
        0 <= n <= p.len(),
        n <= q.len(),
        n <= r.len(),
        forall|k: int| 0 <= k < n ==> ((#[trigger] p[k]) - q[k] - r[k]) % (MODULUS as int) == 0,
    ensures
        (poly_value(p, x, n) - poly_value(q, x, n) - poly_value(r, x, n)) % (MODULUS as int) == 0,
    decreases n,
{
    let m = MODULUS as int;
    if n == 0 {
        vstd::arithmetic::div_mod::lemma_small_mod(0, m as nat);
    } else {
        lemma_poly_value_adds(p, q, r, x, n - 1);
        let d = poly_value(p, x, n - 1) - poly_value(q, x, n - 1) - poly_value(r, x, n - 1);
        let c = p[n - 1] - q[n - 1] - r[n - 1];
        assert(c % m == 0);
        let pw = vstd::arithmetic::power::pow(x, (n - 1) as nat);
        assert((p[n - 1] as int) * pw - (q[n - 1] as int) * pw - (r[n - 1] as int) * pw == c * pw)
            by (nonlinear_arith)
            requires
                c == p[n - 1] - q[n - 1] - r[n - 1],
        ;
        vstd::arithmetic::div_mod::lemma_fundamental_div_mod(d, m);
        vstd::arithmetic::div_mod::lemma_fundamental_div_mod(c, m);
        let u = d / m;
        let t = c / m;
        assert(poly_value(p, x, n) - poly_value(q, x, n) - poly_value(r, x, n) == (u + t * pw) * m)
            by (nonlinear_arith)
            requires
                poly_value(p, x, n) - poly_value(q, x, n) - poly_value(r, x, n) == d + c * pw,
                d == m * u,
                c == m * t,
        ;
        vstd::arithmetic::div_mod::lemma_mod_multiples_basic(u + t * pw, m);
    }
}

/// One coefficient of a summed leaf, reduced, agrees modulo `MODULUS` with
/// the sum of the reduced coefficients of the summands.
proof fn lemma_coefficient_adds(qa: int, qb: int, v: int)
    requires
        qa >= 0,
        qb >= 0,
        v == trunc_rem(trunc_rem(qa, MODULUS as int) + trunc_rem(qb, MODULUS as int), MODULUS as int),
    ensures
        ({
            let m = MODULUS as int;
            &&& (trunc_rem(v, m) - trunc_rem(qa, m) - trunc_rem(qb, m)) % m == 0
            &&& 0 <= trunc_rem(v, m) < m
            &&& 0 <= trunc_rem(qa, m) < m
            &&& 0 <= trunc_rem(qb, m) < m
        }),
{
    let m = MODULUS as int;
    lemma_trunc_rem(qa, m);
    lemma_trunc_rem(qb, m);
    let w = qa % m + qb % m;
    lemma_trunc_rem(w, m);
    lemma_trunc_rem(v, m);
    vstd::arithmetic::div_mod::lemma_mod_twice(w, m);
    vstd::arithmetic::div_mod::lemma_mod_equivalence(v, w, m);
    assert(trunc_rem(v, m) - trunc_rem(qa, m) - trunc_rem(qb, m) == v - w);
}

/// One component of the law below, on the coefficient bytes of two leaves
/// and of their sum.
proof fn lemma_component_distributes(a: Seq<u8>, b: Seq<u8>, s: Seq<u8>)
    requires
        forall|k: int| 0 <= k < 4096 ==> #[trigger] chunk(a, k) >= 0 && chunk(b, k) >= 0,
        forall|k: int| 0 <= k < 4096 ==> #[trigger] chunk(s, k) as int == leaf_sum_coefficient(a, b, k),
    ensures
        eval_state(reduced_poly(s), RANDOM_POINT as int, 4096).0 == trunc_rem(
            eval_state(reduced_poly(a), RANDOM_POINT as int, 4096).0 + eval_state(
                reduced_poly(b),
                RANDOM_POINT as int,
                4096,
            ).0,
            MODULUS as int,
        ),
{
    let m = MODULUS as int;
    let x = RANDOM_POINT as int;
    let ps = reduced_poly(s);
    let pa = reduced_poly(a);
    let pb = reduced_poly(b);
    assert forall|k: int|
        #![trigger ps[k]]
        #![trigger pa[k]]
        #![trigger pb[k]]
        0 <= k < 4096 implies (ps[k] - pa[k] - pb[k]) % m == 0 && ps[k] >= 0 && pa[k] >= 0 && pb[k] >= 0 by {
        lemma_coefficient_adds(chunk(a, k) as int, chunk(b, k) as int, chunk(s, k) as int);
    }
    lemma_poly_value_adds(ps, pa, pb, x, 4096);
    lemma_eval_is_value_mod(ps, x, 4096);
    lemma_eval_is_value_mod(pa, x, 4096);
    lemma_eval_is_value_mod(pb, x, 4096);
    let vs = poly_value(ps, x, 4096);
    let va = poly_value(pa, x, 4096);
    let vb = poly_value(pb, x, 4096);
    lemma_trunc_rem(va % m + vb % m, m);
    vstd::arithmetic::div_mod::lemma_add_mod_noop(va, vb, m);
    assert(vs - (va + vb) == vs - va - vb);
    vstd::arithmetic::div_mod::lemma_mod_equivalence(vs, va + vb, m);
}

/// Where the compressed value of a sum is the reduced sum of the compressed
/// values, so are their 16-byte encodings.
proof fn lemma_compressed_bytes_sum(a: Seq<u8>, b: Seq<u8>, s: Seq<u8>)
    requires
        eval_state(reduced_poly(s), RANDOM_POINT as int, 4096).0 == trunc_rem(
            eval_state(reduced_poly(a), RANDOM_POINT as int, 4096).0 + eval_state(
                reduced_poly(b),
                RANDOM_POINT as int,
                4096,
            ).0,
            MODULUS as int,
        ),
    ensures
        compressed_bytes(s) == nonleaf_sum_bytes(compressed_bytes(a), compressed_bytes(b)),
{
    let x = RANDOM_POINT as int;
    let ea = eval_state(reduced_poly(a), x, 4096).0;
    let eb = eval_state(reduced_poly(b), x, 4096).0;
    lemma_eval_state(reduced_poly(a), x, 4096);
    lemma_eval_state(reduced_poly(b), x, 4096);
    bytes::lemma_i128_le_bytes_roundtrip(ea as i128);
    bytes::lemma_i128_le_bytes_roundtrip(eb as i128);
}

/// Compressing a sum of leaves is summing their compressions: where every
/// coefficient of two leaves is non-negative, `SummationNonLeaf::from_leaf`
/// of their sum (`SummationLeaf::add`) holds, in both components and byte
/// for byte, what `SummationNonLeaf::add` of their two compressions holds;
/// evaluation at `RANDOM_POINT` modulo `MODULUS` distributes over the sum.
pub proof fn lemma_compression_distributes(a: SummationLeaf, b: SummationLeaf, sum: SummationLeaf)
    requires
        forall|k: int| 0 <= k < 4096 ==> #[trigger] chunk(a.c0@, k) >= 0 && chunk(b.c0@, k) >= 0,
        forall|k: int| 0 <= k < 4096 ==> #[trigger] chunk(a.c1@, k) >= 0 && chunk(b.c1@, k) >= 0,
        forall|k: int| 0 <= k < 4096 ==> #[trigger] chunk(sum.c0@, k) as int == leaf_sum_coefficient(a.c0@, b.c0@, k),
        forall|k: int| 0 <= k < 4096 ==> #[trigger] chunk(sum.c1@, k) as int == leaf_sum_coefficient(a.c1@, b.c1@, k),
    ensures
        eval_state(reduced_poly(sum.c0@), RANDOM_POINT as int, 4096).0 == trunc_rem(
            eval_state(reduced_poly(a.c0@), RANDOM_POINT as int, 4096).0 + eval_state(
                reduced_poly(b.c0@),
                RANDOM_POINT as int,
                4096,
            ).0,
            MODULUS as int,
        ),
        eval_state(reduced_poly(sum.c1@), RANDOM_POINT as int, 4096).0 == trunc_rem(
            eval_state(reduced_poly(a.c1@), RANDOM_POINT as int, 4096).0 + eval_state(
                reduced_poly(b.c1@),
                RANDOM_POINT as int,
                4096,
            ).0,
            MODULUS as int,
        ),
        compressed_bytes(sum.c0@) == nonleaf_sum_bytes(compressed_bytes(a.c0@), compressed_bytes(b.c0@)),
        compressed_bytes(sum.c1@) == nonleaf_sum_bytes(compressed_bytes(a.c1@), compressed_bytes(b.c1@)),
{
    lemma_component_distributes(a.c0@, b.c0@, sum.c0@);
    lemma_component_distributes(a.c1@, b.c1@, sum.c1@);
    lemma_compressed_bytes_sum(a.c0@, b.c0@, sum.c0@);
    lemma_compressed_bytes_sum(a.c1@, b.c1@, sum.c1@);
}

/// The reader after `pieces`, starting from `st`.
pub open spec fn read_seq(st: ReadState, pieces: Seq<Seq<u8>>) -> ReadState
    decreases pieces.len(),
{
    if pieces.len() == 0 {
        st
    } else {
        read_piece(read_seq(st, pieces.drop_last()), pieces.last())
    }
}

proof fn lemma_read_pieces_seq(pieces: Seq<Seq<u8>>, k: int)
    requires
        0 <= k <= pieces.len(),
    ensures
        read_pieces(pieces, k) == read_seq(read_init(), pieces.subrange(0, k)),
    decreases k,
{
    if k > 0 {
        lemma_read_pieces_seq(pieces, k - 1);
        assert(pieces.subrange(0, k).drop_last() =~= pieces.subrange(0, k - 1));
    }
}

proof fn lemma_read_seq_concat(st: ReadState, p: Seq<Seq<u8>>, q: Seq<Seq<u8>>)
    ensures
        read_seq(st, p + q) == read_seq(read_seq(st, p), q),
    decreases q.len(),
{
    if q.len() == 0 {
        assert(p + q =~= p);
    } else {
        lemma_read_seq_concat(st, p, q.drop_last());
        assert((p + q).drop_last() =~= p + q.drop_last());
    }
}

/// A piece that leaves the reader as it is: no decimal byte, no `true`
/// and no `false`.
pub open spec fn noop_piece(piece: Seq<u8>) -> bool {
    &&& text::decimal_u8(piece) is None
    &&& text::trimmed(piece) != word_true()
    &&& text::trimmed(piece) != word_false()
}

proof fn lemma_noop_pieces(st: ReadState, pieces: Seq<Seq<u8>>)
    requires
        forall|k: int| 0 <= k < pieces.len() ==> noop_piece(#[trigger] pieces[k]),
    ensures
        read_seq(st, pieces) == st,
    decreases pieces.len(),
{
    if pieces.len() > 0 {
        lemma_noop_pieces(st, pieces.drop_last());
        assert(noop_piece(pieces[pieces.len() - 1]));
    }
}

/// Appending a separator closes the last piece and opens an empty one.
proof fn lemma_split_push_sep(x: Seq<u8>, c: u8)
    requires
        text::is_sep(c),
    ensures
        text::split_seps(x.push(c)) == text::split_seps(x).push(Seq::<u8>::empty()),
{
    assert(x.push(c).drop_last() =~= x);
}

/// After a text that ends with a separator, the pieces of what follows
/// start afresh.
proof fn lemma_split_concat(a: Seq<u8>, b: Seq<u8>)
    requires
        a.len() > 0,
        text::is_sep(a.last()),
    ensures
        text::split_seps(a + b) == text::split_seps(a).drop_last() + text::split_seps(b),
    decreases b.len(),
{
    if b.len() == 0 {
        assert(a + b =~= a);
        assert(a.drop_last().push(a.last()) =~= a);
        lemma_split_push_sep(a.drop_last(), a.last());
        assert(text::split_seps(a).drop_last() + seq![Seq::<u8>::empty()] =~= text::split_seps(a));
    } else {
        lemma_split_concat(a, b.drop_last());
        assert((a + b).drop_last() =~= a + b.drop_last());
        let pa = text::split_seps(a).drop_last();
        let pb = text::split_seps(b.drop_last());
        assert(pb.len() >= 1) by {
            lemma_split_nonempty(b.drop_last());
        }
        if text::is_sep(b.last()) {
            assert((pa + pb).push(Seq::<u8>::empty()) =~= pa + pb.push(Seq::<u8>::empty()));
        } else {
            assert((pa + pb).update((pa + pb).len() - 1, (pa + pb).last().push(b.last())) =~= pa + pb.update(
                pb.len() - 1,
                pb.last().push(b.last()),
            ));
        }
    }
}

proof fn lemma_split_nonempty(s: Seq<u8>)
    ensures
        text::split_seps(s).len() >= 1,
    decreases s.len(),
{
    if s.len() > 0 {
        lemma_split_nonempty(s.drop_last());
    }
}

/// A text without separators is one piece.
proof fn lemma_split_plain(s: Seq<u8>)
    requires
        forall|k: int| 0 <= k < s.len() ==> !text::is_sep(#[trigger] s[k]),
    ensures
        text::split_seps(s) == seq![s],
    decreases s.len(),
{
    if s.len() > 0 {
        lemma_split_plain(s.drop_last());
        assert(!text::is_sep(s[s.len() - 1]));
        assert(s.drop_last().push(s.last()) =~= s);
        assert(seq![s.drop_last()].update(0, s.drop_last().push(s.last())) =~= seq![s]);
    } else {
        assert(s =~= Seq::<u8>::empty());
    }
}

/// The empty piece leaves the reader as it is.
proof fn lemma_empty_noop()
    ensures
        noop_piece(Seq::<u8>::empty()),
{
    let e = Seq::<u8>::empty();
    assert(text::front_ws_len(e) == 0);
    assert(text::trim_front(e) == e);
    assert(text::back_ws_len(e) == 0);
    assert(text::trim_back(e) == e);
    assert(e != word_true());
    assert(e != word_false());
}

/// `items` one after another, separated by `, `.
pub open spec fn comma_list(items: Seq<Seq<u8>>) -> Seq<u8>
    decreases items.len(),
{
    if items.len() == 0 {
        Seq::empty()
    } else if items.len() == 1 {
        items[0]
    } else {
        comma_list(items.drop_last()) + seq![44u8, 32u8] + items.last()
    }
}

/// The reader after the pieces of each of `items` in turn.
pub open spec fn read_texts(st: ReadState, items: Seq<Seq<u8>>) -> ReadState
    decreases items.len(),
{
    if items.len() == 0 {
        st
    } else {
        read_seq(read_texts(st, items.drop_last()), text::split_seps(items.last()))
    }
}

/// Reading a `, `-separated list reads its items one after another.
proof fn lemma_read_comma_list(st: ReadState, items: Seq<Seq<u8>>)
    ensures
        read_seq(st, text::split_seps(comma_list(items))) == read_texts(st, items),
    decreases items.len(),
{
    let e = Seq::<u8>::empty();
    if items.len() == 0 {
        assert(text::split_seps(comma_list(items)) == seq![e]);
        assert(seq![e].drop_last() =~= Seq::<Seq<u8>>::empty());
        lemma_empty_noop();
        assert(read_piece(st, e) == st);
        assert(read_seq(st, seq![e]) == read_piece(read_seq(st, seq![e].drop_last()), e));
    } else if items.len() == 1 {
        assert(items.drop_last() =~= Seq::<Seq<u8>>::empty());
        assert(items.last() == items[0]);
        assert(read_texts(st, items.drop_last()) == st);
    } else {
        let init = comma_list(items.drop_last());
        lemma_read_comma_list(st, items.drop_last());
        let a = init.push(44u8).push(32u8);
        assert(init + seq![44u8, 32u8] =~= a);
        lemma_split_push_sep(init, 44u8);
        lemma_split_push_sep(init.push(44u8), 32u8);
        lemma_split_concat(a, items.last());
        let pa = text::split_seps(a).drop_last();
        assert(pa =~= text::split_seps(init) + seq![e]);
        lemma_read_seq_concat(st, pa, text::split_seps(items.last()));
        lemma_read_seq_concat(st, text::split_seps(init), seq![e]);
        lemma_empty_noop();
        assert(seq![e].drop_last() =~= Seq::<Seq<u8>>::empty());
        let mid = read_seq(st, text::split_seps(init));
        assert(read_piece(mid, e) == mid);
        assert(read_seq(mid, seq![e]) == read_piece(read_seq(mid, seq![e].drop_last()), e));
        assert(comma_list(items) == init + seq![44u8, 32u8] + items.last());
        assert(comma_list(items) =~= a + items.last());
    }
}

/// The decimal digits of `b`, as `{:?}` prints a `u8`.
pub open spec fn decimal_text(b: u8) -> Seq<u8> {
    if b < 10 {
        seq![(48 + b) as u8]
    } else if b < 100 {
        seq![(48 + b / 10) as u8, (48 + b % 10) as u8]
    } else {
        seq![(48 + b / 100) as u8, (48 + (b / 10) % 10) as u8, (48 + b % 10) as u8]
    }
}

proof fn lemma_decimal_text(b: u8)
    ensures
        text::decimal_u8(decimal_text(b)) == Some(b),
        forall|k: int| 0 <= k < decimal_text(b).len() ==> !text::is_sep(#[trigger] decimal_text(b)[k]),
        decimal_text(b).len() > 0,
{
    let d = decimal_text(b);
    assert(d[0] != 43u8);
    assert(crate::keyfile::all_digits(d));
    let h = (b / 100) as int;
    let t = ((b / 10) % 10) as int;
    let u = (b % 10) as int;
    assert(b as int == h * 100 + t * 10 + u && (b / 10) as int == h * 10 + t) by (nonlinear_arith)
        requires
            h == b / 100,
            t == (b / 10) % 10,
            u == b % 10,
    ;
    if b < 10 {
        assert(d.drop_last() =~= Seq::<u8>::empty());
        assert(crate::keyfile::digits_value(d.drop_last()) == 0);
    } else if b < 100 {
        let d1 = d.drop_last();
        assert(d1 =~= seq![(48 + b / 10) as u8]);
        assert(d1.drop_last() =~= Seq::<u8>::empty());
        assert(crate::keyfile::digits_value(d1.drop_last()) == 0);
        assert(crate::keyfile::digits_value(d1) == (b / 10) as int);
    } else {
        let d1 = d.drop_last();
        let d2 = d1.drop_last();
        assert(d1 =~= seq![(48 + b / 100) as u8, (48 + (b / 10) % 10) as u8]);
        assert(d2 =~= seq![(48 + b / 100) as u8]);
        assert(d2.drop_last() =~= Seq::<u8>::empty());
        assert(crate::keyfile::digits_value(d2.drop_last()) == 0);
        assert(crate::keyfile::digits_value(d2) == h);
        assert(crate::keyfile::digits_value(d1) == h * 10 + t);
    }
    assert(crate::keyfile::digits_value(d) == b);
}

/// The decimal texts of the bytes of `h`.
pub open spec fn decimal_texts(h: Seq<u8>) -> Seq<Seq<u8>> {
    Seq::new(h.len(), |i: int| decimal_text(h[i]))
}

/// A hash as `{:?}` prints a `[u8; 32]`: `[`, its bytes in decimal
/// separated by `, `, and `]`.
pub open spec fn hash_text(h: Seq<u8>) -> Seq<u8> {
    seq![91u8] + comma_list(decimal_texts(h)) + seq![93u8]
}

/// `t` with its first `j` bytes taken from `h`.
pub open spec fn filled(t: Seq<u8>, h: Seq<u8>, j: int) -> Seq<u8> {
    Seq::new(32, |i: int| if i < j { h[i] } else { t[i] })
}

proof fn lemma_read_decimals(st: ReadState, h: Seq<u8>, j: int)
    requires
        st.3 == 0,
        st.2.len() == 32,
        h.len() == 32,
        0 <= j < 32,
    ensures
        read_texts(st, decimal_texts(h).subrange(0, j)) == (st.0, st.1, filled(st.2, h, j), j),
    decreases j,
{
    let ds = decimal_texts(h).subrange(0, j);
    if j == 0 {
        assert(filled(st.2, h, 0) =~= st.2);
    } else {
        lemma_read_decimals(st, h, j - 1);
        assert(ds.drop_last() =~= decimal_texts(h).subrange(0, j - 1));
        lemma_decimal_text(h[j - 1]);
        lemma_split_plain(decimal_text(h[j - 1]));
        let prev = (st.0, st.1, filled(st.2, h, j - 1), j - 1);
        assert(read_seq(prev, seq![decimal_text(h[j - 1])]) == read_piece(
            read_seq(prev, seq![decimal_text(h[j - 1])].drop_last()),
            decimal_text(h[j - 1]),
        ));
        assert(seq![decimal_text(h[j - 1])].drop_last() =~= Seq::<Seq<u8>>::empty());
        assert(filled(st.2, h, j - 1).update(j - 1, h[j - 1]) =~= filled(st.2, h, j));
    }
}

/// Reading a printed hash from a reader between hashes completes that hash.
proof fn lemma_read_hash(st: ReadState, h: Seq<u8>)
    requires
        st.3 == 0,
        st.2.len() == 32,
        h.len() == 32,
    ensures
        read_seq(st, text::split_seps(hash_text(h))) == (st.0.push(h), st.1, h, 0int),
{
    let e = Seq::<u8>::empty();
    let ds = decimal_texts(h);
    let cl = comma_list(ds);
    let open = seq![91u8];
    // the pieces: an empty one, those of the list, an empty one
    lemma_split_push_sep(e, 91u8);
    assert(e.push(91u8) =~= open);
    assert(text::split_seps(e) == seq![e]);
    lemma_split_concat(open, cl);
    lemma_split_push_sep(open + cl, 93u8);
    assert(hash_text(h) =~= (open + cl).push(93u8));
    assert(text::split_seps(open).drop_last() =~= seq![e]);
    let pieces = seq![e] + text::split_seps(cl) + seq![e];
    assert(text::split_seps(hash_text(h)) =~= pieces);
    // reading them
    lemma_empty_noop();
    lemma_read_seq_concat(st, seq![e] + text::split_seps(cl), seq![e]);
    lemma_read_seq_concat(st, seq![e], text::split_seps(cl));
    assert(seq![e].drop_last() =~= Seq::<Seq<u8>>::empty());
    assert(read_seq(st, seq![e]) == read_piece(read_seq(st, seq![e].drop_last()), e));
    assert(read_seq(st, seq![e]) == st);
    lemma_read_comma_list(st, ds);
    lemma_read_decimals(st, h, 31);
    assert(ds.drop_last() =~= ds.subrange(0, 31));
    lemma_decimal_text(h[31]);
    lemma_split_plain(decimal_text(h[31]));
    let prev = (st.0, st.1, filled(st.2, h, 31), 31int);
    assert(seq![decimal_text(h[31])].drop_last() =~= Seq::<Seq<u8>>::empty());
    assert(read_seq(prev, seq![decimal_text(h[31])]) == read_piece(
        read_seq(prev, seq![decimal_text(h[31])].drop_last()),
        decimal_text(h[31]),
    ));
    assert(filled(st.2, h, 31).update(31, h[31]) =~= h);
    let done = (st.0.push(h), st.1, h, 0int);
    assert(read_seq(done, seq![e]) == read_piece(read_seq(done, seq![e].drop_last()), e));
}

/// The printed hashes of `lemma`.
pub open spec fn hash_texts(lemma: Seq<Seq<u8>>) -> Seq<Seq<u8>> {
    Seq::new(lemma.len(), |i: int| hash_text(lemma[i]))
}

/// A path step as `{:?}` prints a `bool`.
pub open spec fn bool_text(b: bool) -> Seq<u8> {
    if b { word_true() } else { word_false() }
}

/// The printed steps of `path`.
pub open spec fn bool_texts(path: Seq<bool>) -> Seq<Seq<u8>> {
    Seq::new(path.len(), |i: int| bool_text(path[i]))
}

proof fn lemma_read_hashes(st: ReadState, lemma: Seq<Seq<u8>>, k: int)
    requires
        st.3 == 0,
        st.2.len() == 32,
        forall|i: int| 0 <= i < lemma.len() ==> (#[trigger] lemma[i]).len() == 32,
        0 <= k <= lemma.len(),
    ensures
        read_texts(st, hash_texts(lemma).subrange(0, k)).0 == st.0 + lemma.subrange(0, k),
        read_texts(st, hash_texts(lemma).subrange(0, k)).1 == st.1,
        read_texts(st, hash_texts(lemma).subrange(0, k)).2.len() == 32,
        read_texts(st, hash_texts(lemma).subrange(0, k)).3 == 0,
    decreases k,
{
    if k == 0 {
        assert(st.0 + lemma.subrange(0, 0) =~= st.0);
    } else {
        lemma_read_hashes(st, lemma, k - 1);
        assert(hash_texts(lemma).subrange(0, k).drop_last() =~= hash_texts(lemma).subrange(0, k - 1));
        let prev = read_texts(st, hash_texts(lemma).subrange(0, k - 1));
        lemma_read_hash(prev, lemma[k - 1]);
        assert(prev.0.push(lemma[k - 1]) =~= st.0 + lemma.subrange(0, k));
    }
}

/// `true` and `false` are plain words that the reader takes as path steps.
proof fn lemma_bool_text(b: bool)
    ensures
        text::split_seps(bool_text(b)) == seq![bool_text(b)],
        text::decimal_u8(bool_text(b)) is None,
        text::trimmed(bool_text(b)) == bool_text(b),
        bool_text(b) != word_false() || bool_text(b) != word_true(),
        b ==> bool_text(b) == word_true(),
        !b ==> bool_text(b) == word_false(),
{
    let w = bool_text(b);
    assert(forall|k: int| 0 <= k < w.len() ==> !text::is_sep(#[trigger] w[k]));
    lemma_split_plain(w);
    assert(!crate::keyfile::is_digit(w[0]));
    assert(w[0] != 43u8);
    assert(!crate::keyfile::all_digits(w));
    assert(text::front_ws_len(w) == 0);
    assert(text::trim_front(w) == w);
    assert(text::back_ws_len(w) == 0);
    assert(text::trim_back(w) == w);
    assert(word_true() != word_false()) by {
        assert(word_true().len() != word_false().len());
    }
}

proof fn lemma_read_bools(st: ReadState, path: Seq<bool>, k: int)
    requires
        0 <= k <= path.len(),
    ensures
        read_texts(st, bool_texts(path).subrange(0, k)) == (st.0, st.1 + path.subrange(0, k), st.2, st.3),
    decreases k,
{
    if k == 0 {
        assert(st.1 + path.subrange(0, 0) =~= st.1);
    } else {
        lemma_read_bools(st, path, k - 1);
        assert(bool_texts(path).subrange(0, k).drop_last() =~= bool_texts(path).subrange(0, k - 1));
        let prev = read_texts(st, bool_texts(path).subrange(0, k - 1));
        let w = bool_text(path[k - 1]);
        lemma_bool_text(path[k - 1]);
        assert(seq![w].drop_last() =~= Seq::<Seq<u8>>::empty());
        assert(read_seq(prev, seq![w]) == read_piece(read_seq(prev, seq![w].drop_last()), w));
        assert(prev.1.push(path[k - 1]) =~= st.1 + path.subrange(0, k));
    }
}

/// Every piece of `pieces` leaves the reader as it is.
pub open spec fn all_noop(pieces: Seq<Seq<u8>>) -> bool {
    forall|k: int| 0 <= k < pieces.len() ==> noop_piece(#[trigger] pieces[k])
}

/// A printable ASCII word that is neither a number nor a path step leaves
/// the reader as it is.
proof fn lemma_word_noop(w: Seq<u8>)
    requires
        w.len() > 0,
        forall|k: int| 0 <= k < w.len() ==> 33 <= #[trigger] w[k] <= 126,
        !crate::keyfile::is_digit(w[0]),
        w[0] != 43u8,
        w[0] != 116u8,
        w[0] != 102u8,
    ensures
        noop_piece(w),
{
    let n = w.len() as int;
    assert(33 <= w[0] <= 126);
    assert(33 <= w[n - 1] <= 126);
    if n >= 2 {
        assert(33 <= w[n - 2] <= 126);
    }
    if n >= 3 {
        assert(33 <= w[n - 3] <= 126);
    }
    assert(!crate::keyfile::all_digits(w));
    assert(w != word_true()) by {
        assert(word_true()[0] == 116u8);
    }
    assert(w != word_false()) by {
        assert(word_false()[0] == 102u8);
    }
    assert(text::front_ws_len(w) == 0);
    assert(text::trim_front(w) == w);
    assert(text::back_ws_len(w) == 0);
    assert(text::trim_back(w) == w);
}

proof fn lemma_noop_push_sep(x: Seq<u8>, c: u8)
    requires
        text::is_sep(c),
        all_noop(text::split_seps(x)),
    ensures
        all_noop(text::split_seps(x.push(c))),
{
    lemma_split_push_sep(x, c);
    lemma_empty_noop();
    let ps = text::split_seps(x).push(Seq::<u8>::empty());
    assert forall|k: int| 0 <= k < ps.len() implies noop_piece(#[trigger] ps[k]) by {
        if k < ps.len() - 1 {
            assert(ps[k] == text::split_seps(x)[k]);
        }
    }
}

proof fn lemma_noop_word(a: Seq<u8>, w: Seq<u8>)
    requires
        a.len() > 0,
        text::is_sep(a.last()),
        all_noop(text::split_seps(a)),
        forall|k: int| 0 <= k < w.len() ==> !text::is_sep(#[trigger] w[k]),
        noop_piece(w),
    ensures
        all_noop(text::split_seps(a + w)),
{
    lemma_split_concat(a, w);
    lemma_split_plain(w);
    let ps = text::split_seps(a).drop_last() + seq![w];
    assert forall|k: int| 0 <= k < ps.len() implies noop_piece(#[trigger] ps[k]) by {
        if k < ps.len() - 1 {
            assert(ps[k] == text::split_seps(a)[k]);
        }
    }
}

/// After a text that ends with a separator, reading goes on with the text
/// that follows.
proof fn lemma_read_concat(st: ReadState, a: Seq<u8>, b: Seq<u8>)
    requires
        a.len() > 0,
        text::is_sep(a.last()),
    ensures
        read_seq(st, text::split_seps(a + b)) == read_seq(read_seq(st, text::split_seps(a)), text::split_seps(b)),
{
    let e = Seq::<u8>::empty();
    lemma_split_concat(a, b);
    lemma_read_seq_concat(st, text::split_seps(a).drop_last(), text::split_seps(b));
    assert(a.drop_last().push(a.last()) =~= a);
    lemma_split_push_sep(a.drop_last(), a.last());
    assert(text::split_seps(a).drop_last() =~= text::split_seps(a.drop_last()));
    lemma_empty_noop();
    let ps = text::split_seps(a);
    assert(ps.last() == e);
    assert(read_seq(st, ps) == read_piece(read_seq(st, ps.drop_last()), ps.last()));
}

/// The last byte of a `, `-separated list is that of its last item.
proof fn lemma_comma_list_last(items: Seq<Seq<u8>>)
    requires
        items.len() > 0,
        items.last().len() > 0,
    ensures
        comma_list(items).len() > 0,
        comma_list(items).last() == items.last().last(),
{
    if items.len() >= 2 {
        let x = comma_list(items.drop_last()) + seq![44u8, 32u8];
        assert((x + items.last()).last() == items.last().last());
    }
}

/// `Proof { lemma: [`
pub open spec fn proof_text_head() -> Seq<u8> {
    seq![80u8, 114u8, 111u8, 111u8, 102u8, 32u8, 123u8, 32u8, 108u8, 101u8, 109u8, 109u8, 97u8, 58u8, 32u8, 91u8]
}

/// `], path: [`
pub open spec fn proof_text_middle() -> Seq<u8> {
    seq![93u8, 44u8, 32u8, 112u8, 97u8, 116u8, 104u8, 58u8, 32u8, 91u8]
}

/// `] }`
pub open spec fn proof_text_tail() -> Seq<u8> {
    seq![93u8, 32u8, 125u8]
}

/// A merkle proof as `{:?}` prints `merkle_light`'s `Proof<[u8; 32]>`:
/// `Proof { lemma: [[..], ..], path: [..] }`, the hashes and the path steps
/// each separated by `, `.
pub open spec fn printed_proof(lemma: Seq<Seq<u8>>, path: Seq<bool>) -> Seq<u8> {
    proof_text_head() + comma_list(hash_texts(lemma)) + proof_text_middle() + comma_list(bool_texts(path))
        + proof_text_tail()
}

proof fn lemma_fixed_texts_noop()
    ensures
        all_noop(text::split_seps(proof_text_head())),
        all_noop(text::split_seps(proof_text_middle())),
        all_noop(text::split_seps(seq![32u8, 125u8])),
{
    let e = Seq::<u8>::empty();
    lemma_empty_noop();
    assert(text::split_seps(e) == seq![e]);
    assert(all_noop(text::split_seps(e)));
    // Proof { lemma: [
    let w1 = seq![80u8, 114u8, 111u8, 111u8, 102u8];
    let w2 = seq![123u8];
    let w3 = seq![108u8, 101u8, 109u8, 109u8, 97u8, 58u8];
    lemma_word_noop(w1);
    lemma_word_noop(w2);
    lemma_word_noop(w3);
    lemma_split_plain(w1);
    assert(all_noop(text::split_seps(w1)));
    lemma_noop_push_sep(w1, 32u8);
    lemma_noop_word(w1.push(32u8), w2);
    let a2 = w1.push(32u8) + w2;
    lemma_noop_push_sep(a2, 32u8);
    lemma_noop_word(a2.push(32u8), w3);
    let a4 = a2.push(32u8) + w3;
    lemma_noop_push_sep(a4, 32u8);
    lemma_noop_push_sep(a4.push(32u8), 91u8);
    assert(a4.push(32u8).push(91u8) =~= proof_text_head());
    // ], path: [
    let w4 = seq![112u8, 97u8, 116u8, 104u8, 58u8];
    lemma_word_noop(w4);
    lemma_noop_push_sep(e, 93u8);
    lemma_noop_push_sep(e.push(93u8), 44u8);
    lemma_noop_push_sep(e.push(93u8).push(44u8), 32u8);
    let m2 = e.push(93u8).push(44u8).push(32u8);
    lemma_noop_word(m2, w4);
    lemma_noop_push_sep(m2 + w4, 32u8);
    lemma_noop_push_sep((m2 + w4).push(32u8), 91u8);
    assert((m2 + w4).push(32u8).push(91u8) =~= proof_text_middle());
    //  }
    let w5 = seq![125u8];
    lemma_word_noop(w5);
    lemma_noop_push_sep(e, 32u8);
    lemma_noop_word(e.push(32u8), w5);
    assert(e.push(32u8) + w5 =~= seq![32u8, 125u8]);
}

/// Reading a proof back inverts printing it: the printed form of a proof of
/// more than two 32-byte hashes, with a path two shorter, reads back as
/// that very proof, so `construct_from_string` returns it.
pub proof fn lemma_printed_proof_reads_back(lemma: Seq<Seq<u8>>, path: Seq<bool>)
    requires
        lemma.len() > 2,
        path.len() == lemma.len() - 2,
        forall|i: int| 0 <= i < lemma.len() ==> (#[trigger] lemma[i]).len() == 32,
    ensures
        proof_text(printed_proof(lemma, path)) == Some((lemma, path)),
{
    let e = Seq::<u8>::empty();
    let head = proof_text_head();
    let l = comma_list(hash_texts(lemma));
    let mid = proof_text_middle();
    let p = comma_list(bool_texts(path));
    let t = printed_proof(lemma, path);
    let init = read_init();
    lemma_fixed_texts_noop();
    // the list of hashes ends with the `]` of its last hash
    assert(hash_texts(lemma).last() == hash_text(lemma[lemma.len() - 1]));
    assert(hash_text(lemma[lemma.len() - 1]).last() == 93u8);
    lemma_comma_list_last(hash_texts(lemma));
    // the printed proof, split where a separator ends a part
    let y = head + l + mid + p;
    assert(t =~= y.push(93u8) + seq![32u8, 125u8]);
    lemma_read_concat(init, y.push(93u8), seq![32u8, 125u8]);
    lemma_split_push_sep(y, 93u8);
    lemma_read_seq_concat(init, text::split_seps(y), seq![e]);
    lemma_read_concat(init, head + l + mid, p);
    lemma_read_concat(init, head + l, mid);
    lemma_read_concat(init, head, l);
    // reading each part
    lemma_noop_pieces(init, text::split_seps(head));
    let s1 = read_seq(init, text::split_seps(head));
    lemma_read_comma_list(s1, hash_texts(lemma));
    lemma_read_hashes(init, lemma, lemma.len() as int);
    assert(hash_texts(lemma).subrange(0, lemma.len() as int) =~= hash_texts(lemma));
    let s2 = read_seq(s1, text::split_seps(l));
    lemma_noop_pieces(s2, text::split_seps(mid));
    lemma_read_comma_list(s2, bool_texts(path));
    lemma_read_bools(s2, path, path.len() as int);
    assert(bool_texts(path).subrange(0, path.len() as int) =~= bool_texts(path));
    let s3 = read_seq(s2, text::split_seps(p));
    lemma_empty_noop();
    assert(seq![e].drop_last() =~= Seq::<Seq<u8>>::empty());
    assert(read_seq(s3, seq![e]) == read_piece(read_seq(s3, seq![e].drop_last()), e));
    lemma_noop_pieces(s3, text::split_seps(seq![32u8, 125u8]));
    assert(s1 == init);
    assert(s2.0 == lemma && s2.1 == Seq::<bool>::empty() && s2.3 == 0) by {
        assert(init.0 + lemma.subrange(0, lemma.len() as int) =~= lemma);
    }
    assert(read_seq(s2, text::split_seps(mid)) == s2);
    assert(s3.0 == lemma && s3.1 == path) by {
        assert(s2.1 + path.subrange(0, path.len() as int) =~= path);
    }
    assert(read_seq(init, text::split_seps(head + l)) == s2);
    assert(read_seq(init, text::split_seps(head + l + mid)) == s2);
    assert(read_seq(init, text::split_seps(y)) == s3);
    assert(text::split_seps(y).push(e) =~= text::split_seps(y) + seq![e]);
    assert(read_seq(init, text::split_seps(y.push(93u8))) == s3);
    assert(read_seq(init, text::split_seps(t)) == s3);
    // what `proof_text` reads
    let pieces = text::split_seps(t);
    lemma_read_pieces_seq(pieces, pieces.len() as int);
    assert(pieces.subrange(0, pieces.len() as int) =~= pieces);
    assert(init.0 + lemma.subrange(0, lemma.len() as int) =~= lemma);
    assert(s2.1 + path.subrange(0, path.len() as int) =~= path);
}

} // verus!
