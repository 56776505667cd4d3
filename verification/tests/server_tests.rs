use quail::back_server::{is_waitable, next_stage_to, wait_till, Outcome, Server, WaitStep, STAGE};
use quail::client::{all_proofs_ok, check_response, check_responses, get_random_non_leafs, proof_ok_exec};
use quail::aggregation::node::SummationEntry;

fn key(b: u8) -> Vec<u8> {
    vec![b, 200, b ^ 0x55]
}

#[test]
fn stage_machine_moves_forward_only() {
    assert_eq!(next_stage_to((STAGE::Commit, 3), STAGE::Data), (STAGE::Data, 3));
    assert_eq!(next_stage_to((STAGE::Data, 3), STAGE::Verify), (STAGE::Verify, 3));
    assert_eq!(next_stage_to((STAGE::Verify, 3), STAGE::Commit), (STAGE::Commit, 4));
    assert_eq!(next_stage_to((STAGE::Commit, 3), STAGE::Verify), (STAGE::Commit, 3));
    assert_eq!(next_stage_to((STAGE::Data, 3), STAGE::Commit), (STAGE::Data, 3));
    let mut s = (STAGE::Commit, 0u32);
    for t in [STAGE::Data, STAGE::Verify, STAGE::Commit] {
        s = next_stage_to(s, t);
    }
    assert_eq!(s, (STAGE::Commit, 1));
}

#[test]
fn waiting_rules() {
    assert!(is_waitable(&(STAGE::Verify, 2), (STAGE::Commit, 3)));
    assert!(!is_waitable(&(STAGE::Verify, 2), (STAGE::Commit, 2)));
    assert!(is_waitable(&(STAGE::Commit, 2), (STAGE::Data, 2)));
    assert!(!is_waitable(&(STAGE::Data, 2), (STAGE::Data, 1)));
    assert!(is_waitable(&(STAGE::Data, 2), (STAGE::Commit, 9)));
    assert_eq!(wait_till((STAGE::Commit, 4), STAGE::Commit, 4), WaitStep::Proceed);
    assert_eq!(wait_till((STAGE::Verify, 4), STAGE::Commit, 5), WaitStep::Wait);
    assert_eq!(wait_till((STAGE::Commit, 4), STAGE::Data, 4), WaitStep::Wait);
    assert_eq!(wait_till((STAGE::Commit, 4), STAGE::Commit, 7), WaitStep::GiveUp);
    assert_eq!(wait_till((STAGE::Commit, 4), STAGE::Commit, 3), WaitStep::GiveUp);
}

fn run_round(n: u8) -> Server {
    let mut server = Server::setup(n as u32, 0, 0, 4096);
    assert_eq!(server.mc.len(), 1);
    assert_eq!(server.state, (STAGE::Commit, 0));
    // data before commit is the wrong stage
    assert_eq!(
        server.aggregate_data(&key(0), &vec![vec![1]], &vec![vec![1]], &vec![[0u8; 16]], &vec![vec![]]),
        Outcome::WrongStage
    );
    for b in 0..n {
        let o = server.aggregate_commit(&key(b), &vec![[b; 32]]);
        assert_eq!(o, if b + 1 == n { Outcome::Advanced } else { Outcome::Accepted });
    }
    assert_eq!(server.state, (STAGE::Data, 0));
    assert_eq!(server.aggregate_commit(&key(99), &vec![[0; 32]]), Outcome::WrongStage);
    let mc_proofs = server.get_mc_proof(&key(1)).unwrap();
    assert_eq!(mc_proofs.len(), 1);
    assert!(all_proofs_ok(&mc_proofs));
    assert!(server.get_mc_proof(&key(99)).is_none());
    assert!(server.get_ms_proof(&key(1)).is_none());
    // an upload without coefficients is refused once it would complete the tree
    for b in 0..n {
        let c0 = vec![vec![b as i128 * 10 + 1, 5]];
        let c1 = vec![vec![-(b as i128), 6]];
        if b + 1 == n {
            assert_eq!(
                server.aggregate_data(&key(b), &vec![vec![]], &c1, &vec![[b; 16]], &vec![vec![b]]),
                Outcome::Refused
            );
        }
        let o = server.aggregate_data(&key(b), &c0, &c1, &vec![[b; 16]], &vec![vec![b]]);
        assert_eq!(o, if b + 1 == n { Outcome::Advanced } else { Outcome::Accepted });
    }
    assert_eq!(server.state, (STAGE::Verify, 0));
    let ms_proofs = server.get_ms_proof(&key(n - 1)).unwrap();
    assert_eq!(ms_proofs.len(), 1);
    assert!(all_proofs_ok(&ms_proofs));
    assert!(server.get_ms_proof(&key(200)).is_none());
    assert_eq!(server.retrieve_proving_key(), vec![0u8]);
    server
}

#[test]
fn a_full_round_sums_every_upload() {
    let server = run_round(8);
    let root = server.ms[0].get_root();
    assert_eq!(root.c0, (0..8).map(|b| b * 10 + 1).sum::<i128>());
    assert_eq!(root.c1, -(0..8).sum::<i128>());
}

#[test]
fn participants_accept_the_servers_answer() {
    let server = run_round(8);
    let (n, s, vinit) = (8u32, 5u32, 0u32);
    let ids = get_random_non_leafs(n, s, vinit);
    assert_eq!(&ids[..3], &[8, 9, 10]);
    let rows = server.verify(vinit, &ids, &vec![0, 3]).unwrap();
    assert_eq!(rows.len(), 1);
    assert_eq!(rows[0].len(), 12 + ids.len());
    assert!(check_response(&rows[0], n, s, vinit));
    assert!(check_responses(&rows, n, s, vinit));
    let proofs: Vec<_> = rows[0].iter().map(|(_, p)| p.clone()).collect();
    assert!(all_proofs_ok(&proofs));
    // a tampered sum is caught
    let mut bad = rows[0].clone();
    if let SummationEntry::NonLeaf(x) = &mut bad[12].0 {
        x.c0 += 1;
    } else {
        panic!("expected a non-leaf");
    }
    assert!(!check_response(&bad, n, s, vinit));
    // a broken proof is caught
    let mut bad = rows[0].clone();
    bad[0].1.lemma[0][0] ^= 1;
    assert!(!proof_ok_exec(&bad[0].1));
    assert!(!check_response(&bad, n, s, vinit));
    // every row of the answer has to pass
    let mut with_bad = rows.clone();
    with_bad.push(bad);
    assert!(!check_responses(&with_bad, n, s, vinit));
    // an empty answer is let through
    assert!(check_responses(&Vec::new(), n, s, vinit));
}

#[test]
fn finishing_a_round_empties_the_trees() {
    let mut server = run_round(4);
    assert_eq!(server.retrieve_model(), vec![0u8; 4096]);
    assert!(server.finish_round());
    assert_eq!(server.state, (STAGE::Commit, 1));
    assert!(server.mc[0].commit_array.is_empty());
    assert!(server.ms[0].summation_array.is_empty());
    assert!(!server.finish_round());
    assert_eq!(server.verify(0, &vec![], &vec![0]).unwrap().len(), 0);
}

#[test]
fn commits_beyond_the_trees_are_refused() {
    let mut server = Server::setup(2, 0, 0, 4096);
    assert_eq!(server.aggregate_commit(&key(1), &vec![[1; 32], [2; 32]]), Outcome::Refused);
    assert_eq!(server.aggregate_commit(&key(1), &vec![[1; 32]]), Outcome::Accepted);
}

#[test]
fn random_non_leafs_have_the_promised_shape() {
    let n = 16u32;
    for _ in 0..20 {
        let ids = get_random_non_leafs(n, 5, 3);
        // leaves 3..=8: even positions 4, 6, 8 name parents 18, 19, 20
        assert_eq!(&ids[..3], &[18, 19, 20]);
        let rest = &ids[3..];
        assert_eq!(rest.len() % 3, 0);
        for t in rest.chunks(3) {
            assert!(t[0] >= n + n / 2 && t[0] < 2 * n - 1);
            assert_eq!(t[1], (t[0] - n) * 2);
            assert_eq!(t[2], (t[0] - n) * 2 + 1);
        }
    }
}

#[test]
fn large_uploads_whose_pair_sums_fit_complete_the_round() {
    let big: i128 = 1 << 126;
    let mut server = Server::setup(4, 0, 0, 4096);
    for b in 0..4u8 {
        server.aggregate_commit(&key(b), &vec![[b; 32]]);
    }
    assert_eq!(server.state, (STAGE::Data, 0));
    // in key order the values alternate in sign, so every partial sum fits
    let vals = [big, -big, big, -big];
    for b in 0..4u8 {
        let o = server.aggregate_data(
            &key(b),
            &vec![vec![vals[b as usize]]],
            &vec![vec![1]],
            &vec![[b; 16]],
            &vec![vec![b]],
        );
        assert_eq!(o, if b == 3 { Outcome::Advanced } else { Outcome::Accepted });
    }
    assert_eq!(server.state, (STAGE::Verify, 0));
}
