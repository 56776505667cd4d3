use crypto::digest::Digest;
use quail::common::{
    extend_bytes, hash_commitment, i128vec_to_le_bytes, push_i128_le_bytes, summation_array_size, CipherText,
};

fn sha3(data: &[u8]) -> [u8; 32] {
    let mut h = crypto::sha3::Sha3::sha3_256();
    h.input(data);
    let mut out = [0u8; 32];
    h.result(&mut out);
    out
}

#[test]
fn summation_array_sizes() {
    assert_eq!(summation_array_size(0), 1);
    assert_eq!(summation_array_size(1), 1);
    assert_eq!(summation_array_size(2), 3);
    assert_eq!(summation_array_size(7), 13);
    assert_eq!(summation_array_size(1000), 1999);
    assert_eq!(summation_array_size(0x8000_0000), 0xffff_ffff);
}

#[test]
fn little_endian_bytes() {
    assert_eq!(i128vec_to_le_bytes(&vec![]), Vec::<u8>::new());
    let b = i128vec_to_le_bytes(&vec![1, -1, 0x0102]);
    assert_eq!(b.len(), 48);
    assert_eq!(&b[0..16], &1i128.to_le_bytes());
    assert_eq!(&b[16..32], &[0xffu8; 16]);
    assert_eq!(&b[32..34], &[2, 1]);
    let mut out = vec![9u8];
    push_i128_le_bytes(&mut out, i128::MIN);
    assert_eq!(out.len(), 17);
    assert_eq!(out[16], 0x80);
    extend_bytes(&mut out, &[4, 5]);
    assert_eq!(&out[17..], &[4, 5]);
}

#[test]
fn commitment_hash_is_sha3_of_key_and_commitment() {
    let h = hash_commitment(&b"abc".to_vec(), &[0u8; 32]);
    let expected = [
        0x15, 0x71, 0x56, 0xab, 0x6b, 0xf8, 0x05, 0xe9, 0xfe, 0x32, 0x63, 0xcf, 0x91, 0xaa, 0x91, 0xc6, 0xd6, 0x95,
        0xec, 0x0f, 0x5f, 0x98, 0x76, 0xc7, 0xf1, 0x07, 0xd6, 0x43, 0xcb, 0x6b, 0xbf, 0x8f,
    ];
    assert_eq!(h, expected);
    let mut data = b"key".to_vec();
    data.extend_from_slice(&[7u8; 32]);
    assert_eq!(hash_commitment(&b"key".to_vec(), &[7u8; 32]), sha3(&data));
}

#[test]
fn empty_ciphertext_is_zero() {
    let ct = CipherText::new();
    assert!(ct.c0.iter().all(|b| *b == 0));
    assert!(ct.c1.iter().all(|b| *b == 0));
}
