use vstd::prelude::*;
use crypto::digest::Digest;
use rand::SeedableRng;
use rsa::pkcs8::ToPublicKey;

verus! {

/// Number of entries the summation recurrence accounts for on `n` leaves:
/// `T(n) = 0` for `n <= 1`, else `T(n) = (n - n % 2) + T((n + 1) / 2)`.
pub open spec fn summation_recurrence(n: nat) -> nat
    decreases n,
{
    if n <= 1 {
        0
    } else {
        ((n - n % 2) as nat + summation_recurrence(((n + 1) / 2) as nat)) as nat
    }
}

/// The recurrence has the closed form `2n - 2` on every positive `n`.
pub proof fn lemma_summation_recurrence_closed_form(n: nat)
    requires
        n >= 1,
    ensures
        summation_recurrence(n) == 2 * n - 2,
    decreases n,
{
    if n > 1 {
        lemma_summation_recurrence_closed_form(((n + 1) / 2) as nat);
    }
}

/// Size of the summation array for `n` leaves: `T(n) + 1`, that is `2n - 1`
/// for `n >= 1` and `1` for `n == 0`.
pub fn summation_array_size(N: u32) -> (size: u32)
    requires
        N <= 0x8000_0000,
    ensures
        size == summation_recurrence(N as nat) + 1,
        size == (if N == 0 { 1 } else { 2 * N - 1 }),
{
    let mut s: u32 = 0;
    let mut n: u32 = N;
    proof {
        if N >= 1 {
            lemma_summation_recurrence_closed_form(N as nat);
        }
    }
    while n > 1
        invariant
            n <= N,
            N <= 0x8000_0000,
            s + summation_recurrence(n as nat) == summation_recurrence(N as nat),
            N >= 1 ==> summation_recurrence(N as nat) == 2 * N - 2,
            N >= 1 ==> n >= 1,
        decreases n,
    {
        assert(n & !1u32 == n - n % 2) by (bit_vector);
        s = s + (n & !1u32);
        n = (n + 1) / 2;
    }
    s + 1
}


/// The `k`-th little-endian byte of the two's-complement form of `x`.
pub open spec fn i128_le_byte(x: i128, k: int) -> u8 {
    ((x as u128) >> ((8 * k) as u128)) as u8
}

/// The 16 little-endian bytes of the two's-complement form of `x`
/// (what `i128::to_le_bytes` gives).
pub open spec fn i128_le_bytes(x: i128) -> Seq<u8> {
    Seq::new(16, |k: int| i128_le_byte(x, k))
}

/// The little-endian bytes of every element of `v`, in order.
pub open spec fn i128s_le_bytes(v: Seq<i128>) -> Seq<u8>
    decreases v.len(),
{
    if v.len() == 0 {
        Seq::empty()
    } else {
        i128s_le_bytes(v.drop_last()) + i128_le_bytes(v.last())
    }
}

/// The two's-complement value of 16 little-endian bytes (what
/// `i128::from_le_bytes` gives).
pub open spec fn i128_from_le_bytes(b: Seq<u8>) -> i128 {
    (b[0] as u128 | (b[1] as u128) << 8u128 | (b[2] as u128) << 16u128 | (b[3] as u128) << 24u128
        | (b[4] as u128) << 32u128 | (b[5] as u128) << 40u128 | (b[6] as u128) << 48u128 | (
    b[7] as u128) << 56u128 | (b[8] as u128) << 64u128 | (b[9] as u128) << 72u128 | (
    b[10] as u128) << 80u128 | (b[11] as u128) << 88u128 | (b[12] as u128) << 96u128 | (
    b[13] as u128) << 104u128 | (b[14] as u128) << 112u128 | (b[15] as u128) << 120u128) as i128
}

proof fn lemma_i128s_le_bytes_len(v: Seq<i128>)
    ensures
        i128s_le_bytes(v).len() == 16 * v.len(),
    decreases v.len(),
{
    if v.len() > 0 {
        lemma_i128s_le_bytes_len(v.drop_last());
    }
}

/// Decoding the 16 little-endian bytes of `x` gives back `x`.
pub proof fn lemma_i128_le_bytes_roundtrip(x: i128)
    ensures
        i128_from_le_bytes(i128_le_bytes(x)) == x,
{
    let u = x as u128;
    assert(((u >> 0u128) as u8 as u128 | ((u >> 8u128) as u8 as u128) << 8u128 | ((
    u >> 16u128) as u8 as u128) << 16u128 | ((u >> 24u128) as u8 as u128) << 24u128 | ((
    u >> 32u128) as u8 as u128) << 32u128 | ((u >> 40u128) as u8 as u128) << 40u128 | ((
    u >> 48u128) as u8 as u128) << 48u128 | ((u >> 56u128) as u8 as u128) << 56u128 | ((
    u >> 64u128) as u8 as u128) << 64u128 | ((u >> 72u128) as u8 as u128) << 72u128 | ((
    u >> 80u128) as u8 as u128) << 80u128 | ((u >> 88u128) as u8 as u128) << 88u128 | ((
    u >> 96u128) as u8 as u128) << 96u128 | ((u >> 104u128) as u8 as u128) << 104u128 | ((
    u >> 112u128) as u8 as u128) << 112u128 | ((u >> 120u128) as u8 as u128) << 120u128)
        == u) by (bit_vector);
    assert((x as u128) as i128 == x) by (bit_vector);
    let b = i128_le_bytes(x);
    assert(b[0] == (u >> 0u128) as u8);
    assert(b[1] == (u >> 8u128) as u8);
    assert(b[2] == (u >> 16u128) as u8);
    assert(b[3] == (u >> 24u128) as u8);
    assert(b[4] == (u >> 32u128) as u8);
    assert(b[5] == (u >> 40u128) as u8);
    assert(b[6] == (u >> 48u128) as u8);
    assert(b[7] == (u >> 56u128) as u8);
    assert(b[8] == (u >> 64u128) as u8);
    assert(b[9] == (u >> 72u128) as u8);
    assert(b[10] == (u >> 80u128) as u8);
    assert(b[11] == (u >> 88u128) as u8);
    assert(b[12] == (u >> 96u128) as u8);
    assert(b[13] == (u >> 104u128) as u8);
    assert(b[14] == (u >> 112u128) as u8);
    assert(b[15] == (u >> 120u128) as u8);
}

/// Appends the 16 little-endian bytes of `x` to `out`.
pub fn push_i128_le_bytes(out: &mut Vec<u8>, x: i128)
    ensures
        final(out)@ == old(out)@ + i128_le_bytes(x),
{
    let u = x as u128;
    let mut k: u128 = 0;
    let ghost start = out@;
    while k < 16
        invariant
            k <= 16,
            u == x as u128,
            out@.len() == start.len() + k,
            out@.subrange(0, start.len() as int) == start,
            forall|j: int| 0 <= j < k ==> #[trigger] out@[start.len() + j] == i128_le_byte(x, j),
        decreases 16 - k,
    {
        let b = (u >> (8 * k)) as u8;
        assert(b == i128_le_byte(x, k as int));
        out.push(b);
        k = k + 1;
    }
    assert forall|j: int| 0 <= j < out@.len() implies out@[j] == (start + i128_le_bytes(x))[j] by {
        if j < start.len() {
            assert(out@.subrange(0, start.len() as int)[j] == start[j]);
        } else {
            assert(out@[start.len() + (j - start.len())] == i128_le_byte(x, j - start.len()));
        }
    }
    assert(out@ =~= start + i128_le_bytes(x));
}

/// Concatenates the little-endian bytes of the elements of `v`.
pub fn i128vec_to_le_bytes(v: &Vec<i128>) -> (ret: Vec<u8>)
    ensures
        ret@ == i128s_le_bytes(v@),
        ret.len() == 16 * v.len(),
{
    let mut ret: Vec<u8> = Vec::new();
    let mut i: usize = 0;
    while i < v.len()
        invariant
            i <= v.len(),
            ret@ == i128s_le_bytes(v@.subrange(0, i as int)),
        decreases v.len() - i,
    {
        proof {
            assert(v@.subrange(0, i + 1).drop_last() =~= v@.subrange(0, i as int));
        }
        push_i128_le_bytes(&mut ret, v[i]);
        i = i + 1;
    }
    assert(v@.subrange(0, v.len() as int) =~= v@);
    proof {
        lemma_i128s_le_bytes_len(v@);
    }
    ret
}

/// The SHA3-256 digest of a byte string, as computed by the `rust-crypto` crate.
pub uninterp spec fn sha3_256_digest(data: Seq<u8>) -> Seq<u8>;

/// SHA3-256 of `data` through `crypto::sha3::Sha3` (`input` once, then
/// `result` into a 32-byte buffer). Claimed: the digest is the named
/// function `sha3_256_digest` of the input bytes; nothing more is said of it.
#[verifier::external_body]
pub(crate) fn sha3_256(data: &[u8]) -> (h: [u8; 32])
    ensures
        h@ == sha3_256_digest(data@),
{
    let mut hasher = crypto::sha3::Sha3::sha3_256();
    hasher.input(data);
    let mut h = [0u8; 32];
    hasher.result(&mut h);
    h
}

/// Appends all bytes of `src` to `out`.
pub fn extend_bytes(out: &mut Vec<u8>, src: &[u8])
    ensures
        final(out)@ == old(out)@ + src@,
{
    let ghost start = out@;
    let mut i: usize = 0;
    while i < src.len()
        invariant
            i <= src.len(),
            out@ == start + src@.subrange(0, i as int),
        decreases src.len() - i,
    {
        out.push(src[i]);
        i = i + 1;
        assert(out@ =~= start + src@.subrange(0, i as int));
    }
    assert(src@.subrange(0, src.len() as int) =~= src@);
}

/// The commitment hash of a participant: SHA3-256 of its RSA public key
/// followed by its 32-byte commitment.
pub fn hash_commitment(rsa_pk: &Vec<u8>, cm: &[u8; 32]) -> (h: [u8; 32])
    ensures
        h@ == sha3_256_digest(rsa_pk@ + cm@),
{
    let mut buf: Vec<u8> = Vec::new();
    extend_bytes(&mut buf, rsa_pk.as_slice());
    extend_bytes(&mut buf, cm);
    assert(buf@ =~= rsa_pk@ + cm@);
    sha3_256(buf.as_slice())
}

/// A fresh 2048-bit RSA public key in PEM form, generated by the `rsa` crate
/// (`RsaPrivateKey::new` with an entropy-seeded `StdRng`, then
/// `to_public_key_pem`). The key depends on chance; nothing is claimed of the
/// returned bytes.
#[verifier::external_body]
pub fn new_rsa_pub_key() -> Vec<u8> {
    let mut rng = rand::rngs::StdRng::from_entropy();
    let private_key = rsa::RsaPrivateKey::new(&mut rng, 2048).expect("failed to generate a key");
    let public_key = rsa::RsaPublicKey::from(&private_key);
    public_key.to_public_key_pem().unwrap().into_bytes()
}

/// Two polynomials of 4096 128-bit coefficients, as raw bytes.
pub struct CipherText {
    pub c0: [u8; 65536],
    pub c1: [u8; 65536],
}

impl CipherText {
    /// The all-zero ciphertext.
    pub fn new() -> (ct: Self)
        ensures
            forall|k: int| 0 <= k < 65536 ==> #[trigger] ct.c0[k] == 0 && ct.c1[k] == 0,
    {
        CipherText { c0: [0u8; 65536], c1: [0u8; 65536] }
    }
}

} // verus!
