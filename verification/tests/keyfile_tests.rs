use quail::keyfile::{contains_exec, parse_i128, read_tagged, split_spaces_exec};

#[test]
fn split_keeps_empty_pieces() {
    assert_eq!(split_spaces_exec(b"a b"), vec![b"a".to_vec(), b"b".to_vec()]);
    assert_eq!(split_spaces_exec(b""), vec![Vec::<u8>::new()]);
    assert_eq!(split_spaces_exec(b" x  "), vec![vec![], b"x".to_vec(), vec![], vec![]]);
}

#[test]
fn contains_finds_substrings() {
    assert!(contains_exec(b"pk_0 1 2", b"pk_0"));
    assert!(contains_exec(b"abc", b""));
    assert!(!contains_exec(b"pk_1 1 2", b"pk_0"));
    assert!(!contains_exec(b"pk", b"pk_0"));
}

#[test]
fn parse_like_from_str_radix() {
    for s in ["0", "42", "-17", "+5", "170141183460469231731687303715884105727", "-170141183460469231731687303715884105728"] {
        assert_eq!(parse_i128(s.as_bytes()), i128::from_str_radix(s, 10).ok(), "{}", s);
    }
    for s in ["", "-", "+", "1a", " 1", "170141183460469231731687303715884105728", "--1"] {
        assert_eq!(parse_i128(s.as_bytes()), None, "{}", s);
        assert!(i128::from_str_radix(s, 10).is_err());
    }
}

#[test]
fn tagged_lines_fill_their_vectors() {
    let lines = vec![
        b"pk_0 1 2 3".to_vec(),
        b"junk 9 9 9".to_vec(),
        b"pk_1 -4 x 6".to_vec(),
        b"pk_0 7".to_vec(),
    ];
    let tags = vec![b"pk_0".to_vec(), b"pk_1".to_vec()];
    let r = read_tagged(&lines, &tags, 4).unwrap();
    assert_eq!(r, vec![vec![7, 2, 3, 0], vec![-4, 0, 6, 0]]);
    // a line longer than the width is refused
    let long = vec![b"pk_1 1 2 3 4 5".to_vec()];
    assert_eq!(read_tagged(&long, &tags, 4), None);
    // ... unless the extra pieces are not numbers
    let long_ok = vec![b"pk_1 1 2 3 4 z".to_vec()];
    assert_eq!(read_tagged(&long_ok, &tags, 4), Some(vec![vec![0; 4], vec![1, 2, 3, 4]]));
}
