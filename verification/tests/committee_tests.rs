use quail::committee_offline::{self as offline, shamir_share};
use quail::committee_online as online;
use quail::rlwe::context::{new_modulus, NTTContext, MODULUS};

#[test]
fn two_share_vectors_round_trip() {
    let s0 = vec![1u64, 0xff_ffff_ffff, 12345];
    let s1 = vec![7u64, 0, 0x12_3456_789a];
    let mut buf = vec![0xaau8; 30];
    offline::serialize_shares_into(&s0, &s1, &mut buf);
    assert_eq!(&buf[0..5], &[1, 0, 0, 0, 0]);
    assert_eq!(&buf[5..10], &[0xff; 5]);
    let (a, b) = offline::deserialize_shares(&buf);
    assert_eq!(a, s0);
    assert_eq!(b, s1);
}

#[test]
fn bytes_past_the_stream_stay() {
    let mut buf = vec![0xaau8; 12];
    offline::serialize_shares_into(&vec![3], &vec![4], &mut buf);
    assert_eq!(&buf[10..], &[0xaa, 0xaa]);
}

#[test]
fn three_share_vectors_round_trip() {
    let s0 = vec![5u64, 6];
    let s1 = vec![0xab_cdef_0123u64, 8];
    let s2 = vec![9u64, 0x10_0000_0000];
    let mut buf = vec![0u8; 30];
    online::serialize_shares_into(&s0, &s1, &s2, &mut buf);
    let (a, b, c) = online::deserialize_shares(&buf);
    assert_eq!((a, b, c), (s0, s1, s2));
}

#[test]
fn u40_reads() {
    assert_eq!(offline::read_u40(&[1, 2, 3, 4, 5, 6], 1), 0x06_0504_0302);
    assert_eq!(offline::read_shares(&[1, 0, 0, 0, 0, 2, 0, 0, 0, 0], 0, 10), vec![1, 2]);
}

#[test]
fn shamir_shares_of_triples() {
    let moduli = vec![new_modulus(101), new_modulus(103), new_modulus(107)];
    let values = vec![(1u64, 2u64, 3u64), (100, 102, 106)];
    let shares = shamir_share(5, 1, &values, &moduli);
    assert_eq!(shares.len(), 5);
    for player in &shares {
        assert_eq!(player.len(), 2);
    }
    // threshold 1: the shares lie on a line, so share(2) - share(1) = share(1) - secret
    for (i, &(a, b, c)) in values.iter().enumerate() {
        let (a1, b1, c1) = shares[0][i];
        let (a2, b2, c2) = shares[1][i];
        assert_eq!((a2 + 101 - a1) % 101, (a1 + 101 - a) % 101);
        assert_eq!((b2 + 103 - b1) % 103, (b1 + 103 - b) % 103);
        assert_eq!((c2 + 107 - c1) % 107, (c1 + 107 - c) % 107);
    }
}

#[test]
fn received_shares_accumulate() {
    let mut acc = vec![vec![1u64, 2, 3], vec![10u64, 20]];
    offline::accumulate_shares(&mut acc, &vec![5, 5, 5, 9], &vec![1, 2]);
    assert_eq!(acc, vec![vec![6, 7, 8], vec![11, 22]]);
}

#[test]
fn noise_residues_multiply_the_reduced_bits() {
    let q = vec![new_modulus(11), new_modulus(13)];
    let qq = vec![new_modulus(5), new_modulus(7), new_modulus(97)];
    let bits = vec![vec![23u64, 4], vec![30u64, 12]];
    let noise = offline::noise_from_bits(&bits, &q, &qq);
    // bit 0: 23 % 11 = 1, 30 % 13 = 4; bit 1: 4 and 12
    assert_eq!(noise[0], vec![(1 * 4) % 5, ((4 % 5) * (12 % 5)) % 5]);
    assert_eq!(noise[1], vec![4, (4 * 12) % 7]);
    assert_eq!(noise[2], vec![4, 48]);
}

#[test]
fn blocks_are_transformed_one_by_one() {
    let c = NTTContext::init(MODULUS[0]).unwrap();
    let mut v: Vec<u64> = (0..8192u64).map(|k| k % 5).collect();
    let mut first: Vec<u64> = v[..4096].to_vec();
    let mut second: Vec<u64> = v[4096..].to_vec();
    c.lazy_ntt_inplace(&mut first);
    c.lazy_ntt_inplace(&mut second);
    offline::ntt_blocks(&mut v, &c);
    assert_eq!(&v[..4096], &first[..]);
    assert_eq!(&v[4096..], &second[..]);
}

#[test]
fn decryption_shares_add_key_times_ciphertext() {
    let ntt: Vec<NTTContext> = MODULUS.iter().map(|q| NTTContext::init(*q).unwrap()).collect();
    let sk: Vec<Vec<u64>> = (0..3).map(|k| (0..4096u64).map(|i| (i + k) % 7).collect()).collect();
    let ct: Vec<Vec<u64>> = (0..3).map(|k| (0..4096u64).map(|i| (3 * i + k) % 11).collect()).collect();
    let mut noise: Vec<Vec<u64>> = (0..3).map(|_| (0..8192u64).map(|i| i % 13).collect()).collect();
    let before = noise.clone();
    online::add_decryption_share(&mut noise, &sk, &ct, &ntt);
    for k in 0..3 {
        let q = MODULUS[k] as u128;
        for i in [0usize, 1, 4095, 4096, 8191] {
            let b = i % 4096;
            let expected = (before[k][i] as u128 + (sk[k][b] as u128 * ct[k][b] as u128) % q) % q;
            assert_eq!(noise[k][i] as u128, expected);
        }
    }
}

#[test]
fn ten_shares_reconstruct_the_first_component() {
    let moduli = vec![new_modulus(65537), new_modulus(65539), new_modulus(65543)];
    let values = vec![(1u64, 1u64, 1u64), (0u64, 5u64, 6u64)];
    let shares = shamir_share(10, 3, &values, &moduli);
    assert_eq!(offline::reconstruct_first_share(&shares, 3, 65537), 1);
    let values = vec![(4242u64, 0u64, 0u64)];
    let shares = shamir_share(10, 9, &values, &moduli);
    assert_eq!(offline::reconstruct_first_share(&shares, 9, 65537), 4242);
}

#[test]
fn shares_past_forty_bits_come_back_masked() {
    let s0 = vec![0x0123_4567_89ab_cdefu64, 5];
    let s1 = vec![u64::MAX, 0x100_0000_0000];
    let mut buf = vec![0u8; 20];
    offline::serialize_shares_into(&s0, &s1, &mut buf);
    let (a, b) = offline::deserialize_shares(&buf);
    assert_eq!(a, vec![0x67_89ab_cdef, 5]);
    assert_eq!(b, vec![0xff_ffff_ffff, 0]);
    let s2 = vec![0x1_0000_0000_0007u64, 9];
    let mut buf = vec![0u8; 30];
    online::serialize_shares_into(&s0, &s1, &s2, &mut buf);
    let (a, b, c) = online::deserialize_shares(&buf);
    assert_eq!(a, vec![0x67_89ab_cdef, 5]);
    assert_eq!(b, vec![0xff_ffff_ffff, 0]);
    assert_eq!(c, vec![7, 9]);
}
