use crypto::digest::Digest;
use quail::client::Client;
use quail::common::i128vec_to_le_bytes;
use quail::light_client::{LightClient, RSA_PK_LEN};
use quail::rlwe::{sample_ternary, PublicKey, MODULUS, NUM_DIMENSION};

fn sha3(data: &[u8]) -> [u8; 32] {
    let mut h = crypto::sha3::Sha3::sha3_256();
    h.input(data);
    let mut out = [0u8; 32];
    h.result(&mut out);
    out
}

/// Key 0 is the polynomial 1 and key 1 the polynomial x, so that
/// `c_0 = r + e_0` and `c_1 = x * r + e_1 + m` (negacyclically).
fn simple_client() -> Client {
    let mut p0 = vec![0i128; NUM_DIMENSION];
    p0[0] = 1;
    let mut p1 = vec![0i128; NUM_DIMENSION];
    p1[1] = 1;
    Client {
        rsa_pk: b"client key".to_vec(),
        c0s: vec![],
        c1s: vec![],
        rs: vec![],
        e0s: vec![],
        e1s: vec![],
        d0s: vec![],
        d1s: vec![],
        m: vec![],
        nonce: vec![],
        enc_pk: PublicKey::new(&p0, &p1),
    }
}

#[test]
fn encryption_matches_the_rlwe_equations() {
    let mut c = simple_client();
    let xs: Vec<u8> = (0..NUM_DIMENSION + 10).map(|k| (k % 251) as u8).collect();
    let e0: Vec<i128> = (0..NUM_DIMENSION).map(|k| (k % 7) as i128 - 3).collect();
    let e1: Vec<i128> = (0..NUM_DIMENSION).map(|k| (k % 5) as i128).collect();
    c.encrypt(&xs, &vec![(e0.clone(), e1.clone())]);
    assert_eq!(c.c0s.len(), 1);
    let r = &c.rs[0];
    assert!(r.iter().all(|x| (0..3).contains(x)));
    for k in 0..NUM_DIMENSION {
        let a0 = r[k] + e0[k];
        assert_eq!(c.c0s[0][k], a0.rem_euclid(MODULUS));
        assert_eq!(c.d0s[0][k] as i128, a0.div_euclid(MODULUS));
        let shifted = if k == 0 { -r[NUM_DIMENSION - 1] } else { r[k - 1] };
        let a1 = shifted + e1[k] + xs[k] as i128;
        assert_eq!(c.c1s[0][k], a1.rem_euclid(MODULUS));
        assert_eq!(c.d1s[0][k] as i128, a1.div_euclid(MODULUS));
    }
    assert_eq!(c.m.len(), 1);
    assert_eq!(c.nonce, vec![[0u8; 16]]);
    let h = c.hash();
    let mut data = vec![0u8; 16];
    data.extend(i128vec_to_le_bytes(&c.c0s[0]));
    data.extend(i128vec_to_le_bytes(&c.c1s[0]));
    data.extend_from_slice(b"client key");
    assert_eq!(h, vec![sha3(&data)]);
    c.clear();
    assert!(c.c0s.is_empty() && c.rs.is_empty() && c.d1s.is_empty());
    assert_eq!(c.m.len(), 1);
}

#[test]
fn ternary_samples() {
    let r = sample_ternary();
    assert_eq!(r.len(), NUM_DIMENSION);
    assert!(r.iter().all(|x| (0..3).contains(x)));
}

#[test]
fn light_clients_have_the_promised_sizes() {
    let lc = LightClient::new(3, 10);
    assert_eq!(lc.nr_lc, 3);
    assert_eq!(lc.cts.len(), 20);
    assert_eq!(lc.proofs.len(), 10);
    assert_eq!(lc.rsa_pk.len(), 3);
    assert!(lc.rsa_pk.iter().all(|k| k.len() == RSA_PK_LEN));
}

#[test]
fn the_key_matrix_multiplies_in_the_negacyclic_ring() {
    // p = 1 + 2X and r = 3 + X^(N-1): p * r = 3 + 6X + X^(N-1) + 2X^N,
    // and X^N = -1, so the product is 1 + 6X + X^(N-1)
    let n = NUM_DIMENSION;
    let mut p = vec![0i128; n];
    p[0] = 1;
    p[1] = 2;
    let mut r = vec![0i128; n];
    r[0] = 3;
    r[n - 1] = 1;
    let pk = PublicKey::new(&p, &p);
    let prod = PublicKey::matrix_mut(&pk.pk_0, &r);
    assert_eq!(prod.len(), n);
    assert_eq!(prod[0], 1);
    assert_eq!(prod[1], 6);
    assert_eq!(prod[n - 1], 1);
    assert!(prod[2..n - 1].iter().all(|x| *x == 0));
}
