use quail::aggregation::merkle::{HashAlgorithm, MerkleTree};
use quail::server_pit::{construct_from_string, evaluate_at, read_i128_le, SummationLeaf, SummationNonLeaf, MODULUS, RANDOM_POINT};

fn boxed_poly(f: impl Fn(usize) -> i128) -> Box<[i128; 4096]> {
    let mut p = Box::new([0i128; 4096]);
    for (k, x) in p.iter_mut().enumerate() {
        *x = f(k);
    }
    p
}

#[test]
fn evaluation_reduces_with_rust_remainder() {
    assert_eq!(evaluate_at(&[1, 2, 3], 10), 321);
    assert_eq!(evaluate_at(&[], 10), 0);
    assert_eq!(evaluate_at(&[-5], 2), -5);
    assert_eq!(evaluate_at(&[MODULUS + 1], 2), 1);
    // x^2 at a point close to the modulus wraps around
    let x = MODULUS - 1;
    assert_eq!(evaluate_at(&[0, 0, 1], x), 1);
}

#[test]
fn little_endian_reads() {
    let mut b = vec![0u8; 20];
    b[2..18].copy_from_slice(&(-12345i128).to_le_bytes());
    assert_eq!(read_i128_le(&b, 2), -12345);
}

#[test]
fn leaves_add_coefficientwise_modulo() {
    let a = Box::new(SummationLeaf::new_with_poly(&boxed_poly(|k| k as i128), &boxed_poly(|_| MODULUS + 2)));
    let b = Box::new(SummationLeaf::new_with_poly(&boxed_poly(|_| MODULUS - 1), &boxed_poly(|_| -3)));
    let (a0, a1) = a.coefficients();
    assert_eq!(a0[7], 7);
    assert_eq!(a1[0], MODULUS + 2);
    let s = Box::new(a.add(*b));
    let (s0, s1) = s.coefficients();
    assert_eq!(s0[0], MODULUS - 1);
    assert_eq!(s0[5], 4);
    assert_eq!(s1[9], -1);
}

#[test]
fn leaf_compression_evaluates_at_the_random_point() {
    let leaf = Box::new(SummationLeaf::new_with_poly(
        &boxed_poly(|k| if k < 3 { k as i128 + 1 } else { 0 }),
        &boxed_poly(|k| if k == 1 { -2 } else { 0 }),
    ));
    let n = SummationNonLeaf::from_leaf(*leaf);
    assert_eq!(i128::from_le_bytes(n.c0), 1 + 2 * RANDOM_POINT + 3 * RANDOM_POINT * RANDOM_POINT);
    assert_eq!(i128::from_le_bytes(n.c1), -2 * RANDOM_POINT);
    let z = SummationNonLeaf::new();
    let m = z.add(n);
    assert_eq!(i128::from_le_bytes(m.c0), 321);
    assert_eq!(z.hash(), SummationNonLeaf::new().hash());
}

#[test]
fn printed_proofs_are_read_back() {
    let items: Vec<[u8; 32]> = (0..6u8).map(|i| [i.wrapping_mul(37); 32]).collect();
    let t = MerkleTree::from_items(items);
    let p = t.gen_proof(3);
    let text = format!("{:?}", p);
    let back = construct_from_string(text.as_bytes()).unwrap();
    assert_eq!(back.lemma, p.lemma);
    assert_eq!(back.path, p.path);
    assert!(back.validate());
}

#[test]
fn proof_text_needs_three_hashes_and_a_matching_path() {
    let h = |b: u8| format!("[{}]", vec![b.to_string(); 32].join(", "));
    let two = format!("lemma: [{}, {}], path: []", h(1), h(2));
    assert!(construct_from_string(two.as_bytes()).is_none());
    let three = format!("lemma: [{}, {}, {}], path: [\u{3000}true\t, false]", h(1), h(2), h(3));
    assert!(construct_from_string(three.as_bytes()).is_none());
    let ok = format!("lemma: [{}, {}, {}], path: [\u{3000}true\t]", h(1), h(2), h(3));
    let p = construct_from_string(ok.as_bytes()).unwrap();
    assert_eq!(p.lemma, vec![[1u8; 32], [2u8; 32], [3u8; 32]]);
    assert_eq!(p.path, vec![true]);
    // numbers above 255 and signs other than `+` are skipped
    let skip = format!("lemma: [{}, 300, -1, {}, +3, {}], path: [false]", h(1), vec!["4"; 31].join(", "), h(5));
    let p = construct_from_string(skip.as_bytes()).unwrap();
    let mut expected = [4u8; 32];
    expected[31] = 3;
    assert_eq!(p.lemma[1], expected);
    assert_eq!(p.path, vec![false]);
}

#[test]
fn compressing_a_sum_of_leaves_sums_the_compressions() {
    let a = Box::new(SummationLeaf::new_with_poly(
        &boxed_poly(|k| (k as i128 * 7919) % (MODULUS + 5)),
        &boxed_poly(|k| MODULUS - 1 - k as i128),
    ));
    let b = Box::new(SummationLeaf::new_with_poly(
        &boxed_poly(|k| MODULUS + k as i128),
        &boxed_poly(|k| (k as i128) * (k as i128)),
    ));
    let whole = SummationNonLeaf::from_leaf(a.add(*b));
    let parts = SummationNonLeaf::from_leaf(*a).add(SummationNonLeaf::from_leaf(*b));
    assert_eq!(i128::from_le_bytes(whole.c0), i128::from_le_bytes(parts.c0));
    assert_eq!(i128::from_le_bytes(whole.c1), i128::from_le_bytes(parts.c1));
    assert_eq!(whole.c0, parts.c0);
    assert_eq!(whole.c1, parts.c1);
}

#[test]
fn merkle_light_printed_proofs_are_read_back() {
    let items: Vec<[u8; 32]> = (0..5u8).map(|i| [i.wrapping_mul(50); 32]).collect();
    let t: merkle_light::merkle::MerkleTree<[u8; 32], HashAlgorithm> = items.into_iter().collect();
    let p = t.gen_proof(2);
    let text = format!("{:?}", p);
    assert!(text.starts_with("Proof { lemma: [["));
    let back = construct_from_string(text.as_bytes()).unwrap();
    assert_eq!(back.lemma, p.lemma().to_vec());
    assert_eq!(back.path, p.path().to_vec());
}
