use quail::rlwe::{PublicKey, NUM_DIMENSION};
use quail::rlwe::MODULUS;
use quail::zksnark::offline::{CircuitOffline, WitnessValue};
use quail::zksnark::{Circuit, Term, Var, CONSTRAINTS_PER_COEFF, WITNESSES_PER_COEFF};

fn key_lines(p0: &[i128], p1: &[i128]) -> Vec<Vec<u8>> {
    let mut a = String::from("pk_0");
    for x in p0 {
        a.push_str(&format!(" {}", x));
    }
    let mut b = String::from("pk_1");
    for x in p1 {
        b.push_str(&format!(" {}", x));
    }
    vec![a.into_bytes(), b.into_bytes()]
}

fn unit(v: Var) -> Term {
    Term { coeff: 1, neg: false, shift: 0, var: v }
}

#[test]
fn circuit_sizes() {
    let c = Circuit::new(2, &key_lines(&[3, 4], &[5, 6])).unwrap();
    assert_eq!(c.pk_0.len(), 4096);
    assert_eq!(c.pk_1.len(), 4096);
    assert_eq!(c.pk_0[..2].to_vec(), vec![3, 4]);
    assert_eq!(c.pk_1[..2].to_vec(), vec![5, 6]);
    assert!(c.pk_0[2..].iter().all(|x| *x == 0));
    assert_eq!(c.num_constraints(), CONSTRAINTS_PER_COEFF * 2);
    assert_eq!(c.num_inputs(), 4);
    assert_eq!(c.num_witnesses(), WITNESSES_PER_COEFF * 2);
}

#[test]
fn bit_and_decomposition_constraints() {
    let c = Circuit::new(1, &key_lines(&[1], &[0])).unwrap();
    // constraint 2 is the first bit constraint of e0: w[6] * (w[6] - 1) = 0
    let k = c.constraint_at(2);
    assert_eq!(k.a, vec![unit(Var::Witness(6))]);
    assert_eq!(k.b, vec![unit(Var::Witness(6)), Term { coeff: 1, neg: true, shift: 0, var: Var::One }]);
    assert!(k.c.is_empty());
    // constraint 7 decomposes e0 (witness 1) over its 5 bits
    let k = c.constraint_at(7);
    let coeffs: Vec<i128> = k.a.iter().map(|t| t.coeff).collect();
    assert_eq!(coeffs, vec![1, 2, 4, 8, 16]);
    assert_eq!(k.c, vec![unit(Var::Witness(1))]);
    // the last constraint decomposes delta1 with its offset
    let k = c.constraint_at(50);
    assert_eq!(k.a.len(), 13);
    assert_eq!(k.c[1], Term { coeff: 4096, neg: false, shift: 0, var: Var::One });
}

#[test]
fn a_small_circuit_over_full_keys() {
    let full: Vec<i128> = (0..4096).map(|k| k as i128).collect();
    let c = Circuit::new(1, &key_lines(&full, &full)).unwrap();
    assert_eq!(c.pk_0.len(), 4096);
    assert_eq!(c.num_constraints(), 51);
    assert_eq!(c.num_inputs(), 2);
    assert_eq!(c.num_witnesses(), 50);
}

#[test]
fn malformed_key_lines_are_refused() {
    let mut long = String::from("pk_0");
    for _ in 0..4097 {
        long.push_str(" 1");
    }
    assert!(Circuit::new(1, &vec![long.into_bytes()]).is_none());
}

fn lc_value(ts: &[Term], inputs: &[i128], wits: &[i128]) -> i128 {
    ts.iter()
        .map(|t| {
            let c = if t.neg { -t.coeff } else { t.coeff } * (1i128 << t.shift);
            let v = match t.var {
                Var::One => 1,
                Var::Input(i) => inputs[i],
                Var::Witness(i) => wits[i],
            };
            c * v
        })
        .sum()
}

#[test]
fn honest_encryption_satisfies_the_key_constraints() {
    let n = NUM_DIMENSION;
    let mut p0 = vec![0i128; n];
    p0[0] = 3;
    p0[5] = -2;
    let mut p1 = vec![0i128; n];
    p1[1] = 1;
    p1[n - 1] = 7;
    let lines = key_lines(&p0, &p1);
    let circuit = Circuit::new(n, &lines).unwrap();
    let pk = PublicKey::new(&p0, &p1);
    let m: Vec<u8> = (0..n).map(|k| (k * 7 % 256) as u8).collect();
    let r: Vec<i128> = (0..n).map(|k| (k % 3) as i128).collect();
    let e0: Vec<i128> = (0..n).map(|k| (k % 9) as i128 - 4).collect();
    let e1: Vec<i128> = (0..n).map(|k| (k % 5) as i128).collect();
    let (r, e0, e1, d0, d1, ct) = pk.encrypt_with_randomness(&m, r, e0, e1);
    let inputs: Vec<i128> = ct.c_0.iter().chain(ct.c_1.iter()).copied().collect();
    let mut wits: Vec<i128> = Vec::new();
    wits.extend(r.iter());
    wits.extend(e0.iter());
    wits.extend(e1.iter());
    wits.extend(d0.iter().map(|x| *x as i128));
    wits.extend(d1.iter().map(|x| *x as i128));
    wits.extend(m.iter().map(|x| *x as i128));
    for idx in 0..2 * n {
        let k = circuit.constraint_at(idx);
        let a = lc_value(&k.a, &inputs, &wits);
        let b = lc_value(&k.b, &inputs, &wits);
        let c = lc_value(&k.c, &inputs, &wits);
        assert_eq!(a * b, c, "constraint {}", idx);
    }
}

fn offline_circuit(n: usize, pk: Vec<i128>, r: Vec<i128>, e: Vec<i128>, d: Vec<i128>) -> CircuitOffline {
    // c = pk * r + e - q * d over Z[X]/(X^n + 1)
    let mut c = vec![0i128; n];
    for i in 0..n {
        let mut acc = 0i128;
        for k in 0..n {
            acc += if k <= i { pk[i - k] * r[k] } else { -pk[i + n - k] * r[k] };
        }
        c[i] = acc + e[i] - MODULUS * d[i];
    }
    CircuitOffline { num_dimension: n, c_0: c, r, e_0: e, pk_0: pk, delta_0: d, nonce: [0; 32], hash: [0; 32] }
}

fn offline_assignment(circuit: &CircuitOffline) -> Vec<i128> {
    let mut wits: Vec<i128> = Vec::new();
    for idx in 0..circuit.num_witnesses() {
        let v = match circuit.witness_at(idx) {
            WitnessValue::Int(v) => v,
            WitnessValue::Packed { start, len } => (0..len).map(|k| wits[start + k] << k).sum(),
        };
        wits.push(v);
    }
    wits
}

#[test]
fn honest_offline_secrets_satisfy_every_constraint() {
    let circuit = offline_circuit(3, vec![5, -2, 7], vec![1, 0, 1], vec![3, 31, 0], vec![-1, 2, 4095]);
    assert_eq!(circuit.num_packs(), 2);
    let wits = offline_assignment(&circuit);
    for idx in 0..circuit.num_constraints() {
        let k = circuit.constraint_at(idx);
        let a = lc_value(&k.a, &circuit.c_0, &wits);
        let b = lc_value(&k.b, &circuit.c_0, &wits);
        let c = lc_value(&k.c, &circuit.c_0, &wits);
        assert_eq!(a * b, c, "constraint {}", idx);
    }
}

#[test]
fn a_randomness_coefficient_of_two_breaks_the_offline_circuit() {
    // the second bit witness is r & 2, which weighs 4 in the key sum
    let circuit = offline_circuit(3, vec![5, -2, 7], vec![2, 0, 1], vec![3, 31, 0], vec![-1, 2, 4095]);
    let wits = offline_assignment(&circuit);
    let k = circuit.constraint_at(circuit.num_packs());
    let a = lc_value(&k.a, &circuit.c_0, &wits);
    let c = lc_value(&k.c, &circuit.c_0, &wits);
    assert_ne!(a, c);
}

#[test]
fn the_full_offline_circuit_packs_into_34_elements() {
    let n = NUM_DIMENSION;
    let circuit = offline_circuit(1, vec![1], vec![1], vec![0], vec![0]);
    assert_eq!(circuit.num_packs(), 2);
    let big = CircuitOffline {
        num_dimension: n,
        c_0: vec![0; n],
        r: vec![0; n],
        e_0: vec![0; n],
        pk_0: vec![0; n],
        delta_0: vec![0; n],
        nonce: [0; 32],
        hash: [0; 32],
    };
    assert_eq!(big.num_packs(), 34);
    assert_eq!(big.num_constraints(), 34 + 21 * n);
}
