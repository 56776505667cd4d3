//! A simulated participant that stands for many: random keys, ciphertexts
//! and proofs, uploaded as they are. Talking to the server is the caller's.
use vstd::prelude::*;
use rand::Rng;
use crate::rlwe::entropy_rng;

verus! {

/// `Rng::gen::<u8>()` of the `rand` crate: any byte.
#[verifier::external_body]
fn gen_u8(rng: &mut rand::rngs::StdRng) -> u8 {
    rng.gen::<u8>()
}

/// `Rng::gen::<i128>()` of the `rand` crate: any `i128`.
#[verifier::external_body]
fn gen_i128(rng: &mut rand::rngs::StdRng) -> i128 {
    rng.gen::<i128>()
}

/// `rand::thread_rng().gen::<[u8; 16]>()`: any 16 bytes.
#[verifier::external_body]
fn thread_bytes16() -> [u8; 16] {
    rand::thread_rng().gen::<[u8; 16]>()
}

/// `rand::thread_rng().gen::<[u8; 32]>()`: any 32 bytes.
#[verifier::external_body]
fn thread_bytes32() -> [u8; 32] {
    rand::thread_rng().gen::<[u8; 32]>()
}

/// Length of the simulated RSA public keys, as a PEM-encoded 2048-bit key.
pub const RSA_PK_LEN: usize = 451;

/// What the simulated participants upload.
pub struct LightClient {
    pub nr_lc: u32,
    pub rsa_pk: Vec<Vec<u8>>,
    pub cts: Vec<i128>,
    pub proofs: Vec<u8>,
    pub nonce: [u8; 16],
}

/// `n` random bytes.
fn random_bytes(rng: &mut rand::rngs::StdRng, n: usize) -> (v: Vec<u8>)
    ensures
        v.len() == n,
{
    let mut v: Vec<u8> = Vec::new();
    let mut i: usize = 0;
    while i < n
        invariant
            i <= n,
            v.len() == i,
        decreases n - i,
    {
        v.push(gen_u8(rng));
        i = i + 1;
    }
    v
}

impl LightClient {
    /// `nr_lc` simulated participants, each with a random key of
    /// `RSA_PK_LEN` bytes, sharing `2 * nr_parameter` random ciphertext
    /// coefficients, `nr_parameter` random proof bytes and a random nonce.
    pub fn new(nr_lc: u32, nr_parameter: u32) -> (c: Self)
        requires
            2 * nr_parameter <= u32::MAX,
        ensures
            c.nr_lc == nr_lc,
            c.cts.len() == 2 * nr_parameter,
            c.proofs.len() == nr_parameter,
            c.rsa_pk.len() == nr_lc,
            forall|i: int| 0 <= i < nr_lc ==> (#[trigger] c.rsa_pk@[i]).len() == RSA_PK_LEN,
    {
        let mut rng = entropy_rng();
        let mut cts: Vec<i128> = Vec::new();
        let mut i: u32 = 0;
        while i < nr_parameter * 2
            invariant
                2 * nr_parameter <= u32::MAX,
                i <= nr_parameter * 2,
                cts.len() == i,
            decreases nr_parameter * 2 - i,
        {
            cts.push(gen_i128(&mut rng));
            i = i + 1;
        }
        let proofs = random_bytes(&mut rng, nr_parameter as usize);
        let mut rsa_pk: Vec<Vec<u8>> = Vec::new();
        let mut k: u32 = 0;
        while k < nr_lc
            invariant
                k <= nr_lc,
                rsa_pk.len() == k,
                forall|t: int| 0 <= t < k ==> (#[trigger] rsa_pk@[t]).len() == RSA_PK_LEN,
            decreases nr_lc - k,
        {
            rsa_pk.push(random_bytes(&mut rng, RSA_PK_LEN));
            k = k + 1;
        }
        let nonce = thread_bytes16();
        LightClient { nr_lc, rsa_pk, cts, proofs, nonce }
    }

    /// A random commitment.
    pub fn random_hash() -> [u8; 32] {
        thread_bytes32()
    }
}

} // verus!
