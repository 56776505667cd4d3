# quail

Verified core of a federated-aggregation protocol: participants encrypt their
model updates under RLWE, commit to them, and upload them into summation trees
whose merkle proofs let every participant check the server's sums; a
committee holds the decryption key in Shamir shares.

- `src/` is the library, verified with Verus:
  - `aggregation/`: merkle proofs, the commitment and summation trees, and
    the ordering the trees are sorted by;
  - `back_server`: the server's stage machine and what each request does to
    the trees;
  - `client`, `light_client`: a participant's encryption, commitments and its
    check of the server's answers;
  - `rlwe/`: encryption, Shamir sharing and the number-theoretic transform
    (with the proof that reconstruction modulo a prime above `threshold + 1`
    gives the secret back);
  - `zksnark/`: the range-proof circuits as explicit constraint lists, with
    the proof that an honest prover satisfies them (the offline circuit's
    Poseidon commitment to the packed randomness is not among them);
  - `committee_offline`, `committee_online`: the committee's share framing
    and computations;
  - `keyfile`, `text`, `util/`: key files, printed proofs and settings.
- `app/` holds the programs (server, participant, simulated participants,
  committee members) around the library: networking, files, Groth16 proving.
- `tests/` exercises the library on concrete values.
