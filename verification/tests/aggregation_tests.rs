use merkle_light::hash::Algorithm;
use quail::aggregation::merkle::{bytes_eq, HashAlgorithm, MerkleProof, MerkleTree};
use std::hash::Hasher;
use quail::aggregation::node::{add_two_vec, CommitEntry, SummationEntry, SummationLeaf, SummationNonLeaf};
use quail::aggregation::tree::{McTree, MsTree};

fn key(b: u8) -> Vec<u8> {
    vec![b, b.wrapping_mul(3), 7]
}

fn leaf(b: u8, x: i128, y: i128) -> SummationLeaf {
    SummationLeaf::from_ct(key(b), vec![x, 1, 2], vec![y, 3], [b; 16], vec![b])
}

#[test]
fn merkle_proofs_validate_and_tampering_breaks_them() {
    let items: Vec<[u8; 32]> = (0..5u8).map(|i| [i; 32]).collect();
    let t = MerkleTree::from_items(items);
    for i in 0..5 {
        let p = t.gen_proof(i);
        assert!(p.lemma.len() > 2);
        assert_eq!(p.path.len(), p.lemma.len() - 2);
        assert!(p.validate());
        let mut bad = p.clone();
        bad.lemma[1][0] ^= 1;
        assert!(!bad.validate());
    }
    let e = MerkleProof::empty();
    assert!(e.lemma.is_empty() && e.path.is_empty());
}

#[test]
fn bytes_eq_compares_all_bytes() {
    let a = [3u8; 32];
    let mut b = a;
    assert!(bytes_eq(&a, &b));
    b[31] = 4;
    assert!(!bytes_eq(&a, &b));
}

#[test]
fn add_two_vec_pads_the_shorter() {
    assert_eq!(add_two_vec(&vec![1, 2, 3], &vec![10, 20]), vec![11, 22, 3]);
    assert_eq!(add_two_vec(&vec![], &vec![-5]), vec![-5]);
}

#[test]
fn nonleaf_add_and_leaf_evaluation() {
    let a = SummationNonLeaf { c0: 5, c1: -7 };
    let b = SummationNonLeaf { c0: 10, c1: 8 };
    assert_eq!(a.add(&b), SummationNonLeaf { c0: 15, c1: 1 });
    let l = leaf(1, 42, -3);
    assert_eq!(l.evaluate_at(10), SummationNonLeaf { c0: 42, c1: -3 });
    assert_ne!(a.hash(), b.hash());
    assert_eq!(a.hash(), SummationNonLeaf { c0: 5, c1: -7 }.hash());
}

#[test]
fn commit_entry_defaults() {
    let e = CommitEntry::new();
    assert_eq!(e.rsa_pk, vec![0u8; 500]);
    assert_eq!(e.hash, [0u8; 32]);
    assert_eq!(e.duplicate().hash(), e.hash());
    let l = SummationEntry::new_leaf();
    assert!(l.get_leaf_rsa_pk().is_empty());
}

#[test]
fn commitment_tree_builds_once_full_and_proves_membership() {
    let mut t = McTree::new(3, 1);
    for b in [9u8, 2, 5] {
        assert!(!t.gen_tree());
        let mut e = CommitEntry::new();
        e.rsa_pk = key(b);
        e.hash = [b; 32];
        assert!(t.has_room());
        t.insert_node(e);
    }
    assert!(!t.has_room());
    assert!(t.gen_tree());
    let keys: Vec<Vec<u8>> = t.commit_array.iter().map(|e| e.rsa_pk.clone()).collect();
    assert_eq!(keys, vec![key(2), key(5), key(9)]);
    let p = t.get_proof(&key(5));
    assert!(p.validate());
    assert_eq!(t.find_proof(&key(5)).unwrap().lemma, p.lemma);
    assert!(t.find_proof(&key(4)).is_none());
    assert_eq!(t.get_node(4).rsa_pk, key(5));
    t.clear();
    assert!(t.commit_array.is_empty() && t.mc.is_none());
}

#[test]
fn summation_tree_root_is_the_sum_of_the_leaves() {
    let mut t = MsTree::new(5, 2);
    assert_eq!(t.nr_non_leaf, 9);
    let vals = [(7u8, 10i128, -1i128), (3, 20, -2), (5, 30, -3), (1, 40, -4), (9, 50, -5)];
    for (b, x, y) in vals {
        assert!(!t.gen_tree());
        assert!(t.fits_leaf(&vec![x], &vec![y]));
        t.insert_node(leaf(b, x, y));
    }
    assert!(t.gen_tree());
    assert_eq!(t.summation_array.len(), 9);
    let root = t.get_root();
    assert_eq!(*root, SummationNonLeaf { c0: 150, c1: -15 });
    // leaves sorted by key
    let first: Vec<u8> = (0..5)
        .map(|i| match &t.summation_array[i] {
            SummationEntry::Leaf(l) => l.rsa_pk[0],
            _ => panic!("not a leaf"),
        })
        .collect();
    assert_eq!(first, vec![1, 3, 5, 7, 9]);
    // entry 5 sums leaves 0 and 1
    match t.get_nonleaf_node(5) {
        SummationEntry::NonLeaf(n) => assert_eq!(n, SummationNonLeaf { c0: 40 + 20, c1: -4 - 2 }),
        _ => panic!("not a non-leaf"),
    }
    assert!(t.get_proof(&key(9)).validate());
    assert!(t.get_proof_by_id(7).validate());
    assert!(t.find_proof(&key(4)).is_none());
    t.clear();
    assert!(t.summation_array.is_empty() && t.ms.is_none());
}

#[test]
fn summation_tree_refuses_an_empty_polynomial() {
    let t = MsTree::new(2, 0);
    assert!(!t.fits_leaf(&vec![], &vec![1]));
    assert!(!t.fits_leaf(&vec![1], &vec![2]));
}

#[test]
fn summation_tree_timeout_builds_with_what_arrived() {
    let mut t = MsTree::new(10, 1);
    t.insert_node(leaf(4, 1, 2));
    t.insert_node(leaf(2, 3, 4));
    assert_eq!(t.gen_tree_timeout(), 2);
    assert_eq!(*t.get_root(), SummationNonLeaf { c0: 4, c1: 6 });
}

fn hex(h: &[u8]) -> String {
    h.iter().map(|b| format!("{:02x}", b)).collect()
}

#[test]
fn the_hasher_is_sha3_and_starts_afresh_after_a_digest() {
    let mut a = HashAlgorithm::new();
    a.write(b"abc");
    assert_eq!(hex(&a.hash()), "3a985da74fe225b2045c172d6bd390bd855f086e3e9d525b46bfe24511431532");
    // a second digest without a reset is that of nothing fed
    assert_eq!(hex(&a.hash()), "a7ffc6f8bf1ed76651c14756a061d662f580ff4de43b49fa82d80a4b80f8434a");
    // input after a digest starts a fresh state
    a.write(b"abc");
    assert_eq!(hex(&a.hash()), "3a985da74fe225b2045c172d6bd390bd855f086e3e9d525b46bfe24511431532");
    a.reset();
    a.write(b"ab");
    a.write(b"c");
    assert_eq!(hex(&a.hash()), "3a985da74fe225b2045c172d6bd390bd855f086e3e9d525b46bfe24511431532");
    assert_eq!(a.finish(), 0);
}

#[test]
fn summation_tree_builds_where_the_partial_sums_fit() {
    let big: i128 = 1 << 126;
    let mut t = MsTree::new(4, 0);
    // in key order: +, -, +, -; every pair sums to zero
    for (b, x) in [(1u8, big), (2, -big), (3, big), (4, -big)] {
        // a lone leaf makes no tree, so only later ones are checked
        if b > 1 {
            assert!(t.fits_leaf(&vec![x], &vec![x]));
        }
        t.insert_node(leaf(b, x, x));
    }
    assert!(t.gen_tree());
    assert_eq!(*t.get_root(), SummationNonLeaf { c0: 0, c1: 0 });
}

#[test]
fn summation_tree_is_not_built_where_a_partial_sum_overflows() {
    let big: i128 = 1 << 126;
    let mut t = MsTree::new(4, 0);
    // in key order: +, +, -, -; the first pair sums to 2^127
    for (b, x) in [(4u8, -big), (1, big), (3, -big), (2, big)] {
        t.insert_node(leaf(b, x, 1));
    }
    assert!(!t.gen_tree());
    assert!(t.ms.is_none());
    assert_eq!(t.summation_array.len(), 4);
    let keys: Vec<u8> = t
        .summation_array
        .iter()
        .map(|e| match e {
            SummationEntry::Leaf(l) => l.rsa_pk[0],
            _ => panic!("not a leaf"),
        })
        .collect();
    assert_eq!(keys, vec![1, 2, 3, 4]);
}
