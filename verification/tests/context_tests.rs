use quail::rlwe::context::{
    add_mod, gcd_exec, inv_mod, mul_mod, new_modulus, reduce, sample_below, sub_mod, NTTContext,
    ShamirContext,
};

#[test]
fn test_share_and_reshare() {
    let context = ShamirContext::init(0xffffee001u64, 10, 4);
    // a sixty-fourth of the 4096 * 342 * 40 / 20 rounds keeps the test quick
    for _ in 0..(4096 * 342 * 40 / 20 / 64) {
        let secret = sample_below(&context.modulus);
        let shares = context.share(secret);
        let ret = context.reconstruct(&shares);
        assert_eq!(ret, Some(secret));
    }
}

#[test]
fn test_ntt_inv_ntt() {
    let context = NTTContext::init(0xffffee001u64).unwrap();
    let mut a = vec![1u64; 4096];
    let mut b = vec![0u64; 4096];
    b[0] = 1;
    context.lazy_ntt_inplace(&mut a);
    context.lazy_ntt_inplace(&mut b);
    let mut ntt_c = context.coeff_mul_mod(&a, &b);
    context.lazy_inverse_ntt_inplace(&mut ntt_c);
    assert_eq!(ntt_c, vec![1u64; 4096]);
}

#[test]
fn ntt_round_trip_of_a_ramp() {
    let context = NTTContext::init(0xffffee001u64).unwrap();
    let orig: Vec<u64> = (0..4096u64).map(|k| k * 7 + 3).collect();
    let mut a = orig.clone();
    context.lazy_ntt_inplace(&mut a);
    assert_ne!(a, orig);
    context.lazy_inverse_ntt_inplace(&mut a);
    assert_eq!(a, orig);
}

#[test]
fn shamir_shares_lie_on_a_polynomial_of_the_threshold_degree() {
    let context = ShamirContext::init(101, 6, 2);
    assert_eq!(context.eval_matrix[2], vec![1, 3, 9]);
    let shares = context.share(42);
    assert_eq!(shares.len(), 6);
    // Any three consecutive shares of a quadratic have a zero third difference
    // with the next one.
    for i in 0..3 {
        let d = (shares[i + 3] as i64 - 3 * shares[i + 2] as i64 + 3 * shares[i + 1] as i64
            - shares[i] as i64)
            .rem_euclid(101);
        assert_eq!(d, 0);
    }
    assert_eq!(context.reconstruct(&shares), Some(42));
}

#[test]
fn lagrange_at_zero_of_a_line() {
    let context = ShamirContext::init(97, 2, 1);
    // y = 5 + 3x through x = 1, 2
    assert_eq!(context.lagrange_interpolation_at_zero(&vec![1, 2], &vec![8, 11]), Some(5));
    // a repeated point has no inverse
    assert_eq!(context.lagrange_interpolation_at_zero(&vec![3, 3], &vec![8, 11]), None);
}

#[test]
fn modular_arithmetic() {
    let m = new_modulus(97);
    assert_eq!(m.rep(), 97);
    assert_eq!(mul_mod(50, 60, &m), 3000 % 97);
    assert_eq!(add_mod(90, 20, &m), 13);
    assert_eq!(sub_mod(3, 20, &m), 80);
    assert_eq!(reduce(1000, &m), 1000 % 97);
    assert_eq!(inv_mod(5, &m), 39);
    assert_eq!(gcd_exec(12, 18), 6);
    for _ in 0..100 {
        assert!(sample_below(&m) < 97);
    }
}

#[test]
fn more_holders_than_the_prime_still_reconstruct() {
    let context = ShamirContext::init(7, 10, 2);
    for secret in 0..7u64 {
        let shares = context.share(secret);
        assert_eq!(shares.len(), 10);
        assert!(shares.iter().all(|s| *s < 7));
        assert_eq!(context.reconstruct(&shares), Some(secret));
    }
}
