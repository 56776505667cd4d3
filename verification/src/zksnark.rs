//! The rank-one constraint system that proves a ciphertext honest: for each
//! coefficient, `pk_k * r + e_k (+ m) = c_k + delta_k * q` over the
//! negacyclic ring, and bit decompositions that bound the noise, the message
//! and the quotients. Variables are numbered in the order the proving system
//! allocates them; handing the constraints to the proving system is the
//! caller's.
pub mod offline;
use vstd::prelude::*;
use crate::keyfile;
use crate::rlwe::{self, MODULUS, NUM_DIMENSION, PublicKey};
use crate::client;

verus! {

/// The order of the scalar field of BLS12-381, in which the constraints are
/// read.
pub open spec fn scalar_field() -> int {
    52435875175126190479447740508185965837690552500527637822603658699938581184513int
}

/// A variable: the constant one, the `i`-th public input or the `i`-th
/// witness, in allocation order.
#[derive(Debug, Clone, Copy, PartialEq, Eq, Structural)]
pub enum Var {
    One,
    Input(usize),
    Witness(usize),
}

/// A term `(neg ? -coeff : coeff) * 2^shift * var` of a linear combination.
#[derive(Debug, Clone, Copy, PartialEq, Eq, Structural)]
pub struct Term {
    pub coeff: i128,
    pub neg: bool,
    pub shift: u32,
    pub var: Var,
}

/// A constraint `a * b = c` between three linear combinations.
pub struct Constraint {
    pub a: Vec<Term>,
    pub b: Vec<Term>,
    pub c: Vec<Term>,
}

/// The signed coefficient of a term.
pub open spec fn coeff_value(t: Term) -> int {
    let c = if t.neg { -(t.coeff as int) } else { t.coeff as int };
    if t.shift == 0 { c } else { c * two_pow(t.shift as nat) }
}

/// The value of a variable under an assignment.
pub open spec fn var_value(v: Var, inputs: Seq<int>, wits: Seq<int>) -> int {
    match v {
        Var::One => 1,
        Var::Input(i) => inputs[i as int],
        Var::Witness(i) => wits[i as int],
    }
}

/// The value of a linear combination under an assignment.
pub open spec fn lc_value(ts: Seq<Term>, inputs: Seq<int>, wits: Seq<int>) -> int
    decreases ts.len(),
{
    if ts.len() == 0 {
        0
    } else {
        lc_value(ts.drop_last(), inputs, wits) + coeff_value(ts.last()) * var_value(ts.last().var, inputs, wits)
    }
}

/// A constraint, given by its three linear combinations, holds in the
/// scalar field under an assignment.
pub open spec fn holds(c: (Seq<Term>, Seq<Term>, Seq<Term>), inputs: Seq<int>, wits: Seq<int>) -> bool {
    (lc_value(c.0, inputs, wits) * lc_value(c.1, inputs, wits) - lc_value(c.2, inputs, wits)) % scalar_field() == 0
}

/// The term `1 * v`.
pub open spec fn unit(v: Var) -> Term {
    Term { coeff: 1, neg: false, shift: 0, var: v }
}

/// The terms of `(pk * r)[i]` over `Z[X]/(X^n + 1)`, one per coefficient
/// `r[k]` (witness `k`), in the order of `k`: `pk[(i - k) mod n]`, negated
/// where `k > i`.
pub open spec fn key_terms(pk: Seq<i128>, n: int, i: int) -> Seq<Term> {
    Seq::new(
        n as nat,
        |k: int| Term { coeff: pk[if k <= i { i - k } else { i - k + n }], neg: k > i, shift: 0, var: Var::Witness(k as usize) },
    )
}

/// Constraint `i` of key `key` (0 or 1): `(pk * r)[i] + e[i] (+ m[i]) = c[i] + q * delta[i]`.
pub open spec fn encryption_constraint(pk: Seq<i128>, n: int, i: int, key: int) -> (Seq<Term>, Seq<Term>, Seq<Term>) {
    let a = if key == 0 {
        key_terms(pk, n, i).push(unit(Var::Witness((n + i) as usize)))
    } else {
        key_terms(pk, n, i).push(unit(Var::Witness((2 * n + i) as usize))).push(unit(Var::Witness((5 * n + i) as usize)))
    };
    let c = seq![
        unit(Var::Input((key * n + i) as usize)),
        Term { coeff: MODULUS, neg: false, shift: 0, var: Var::Witness(((3 + key) * n + i) as usize) },
    ];
    (a, seq![unit(Var::One)], c)
}

/// The constraint `v * (v - 1) = 0` that makes `v` a bit.
pub open spec fn bit_constraint(v: Var) -> (Seq<Term>, Seq<Term>, Seq<Term>) {
    (seq![unit(v)], seq![unit(v), Term { coeff: 1, neg: true, shift: 0, var: Var::One }], Seq::empty())
}

/// `2^k`.
pub open spec fn two_pow(k: nat) -> int
    decreases k,
{
    if k == 0 { 1 } else { 2 * two_pow((k - 1) as nat) }
}

/// The constraint `sum_k 2^k * w[base + k] = target (+ offset)` over `bits`
/// bits.
pub open spec fn decompose_constraint(base: int, bits: int, target: Var, offset: int) -> (Seq<Term>, Seq<Term>, Seq<Term>) {
    let a = Seq::new(
        bits as nat,
        |k: int| Term { coeff: two_pow(k as nat) as i128, neg: false, shift: 0, var: Var::Witness((base + k) as usize) },
    );
    let c = if offset == 0 { seq![unit(target)] } else { seq![unit(target), Term { coeff: offset as i128, neg: false, shift: 0, var: Var::One }] };
    (a, seq![unit(Var::One)], c)
}

/// A range group: for each of `n` values, `bits` bit constraints then the
/// decomposition of witness `target_base + i` with `offset`, its bits at
/// witnesses `bit_base + bits * i ..`; `q` counts constraints inside the
/// group.
pub open spec fn range_constraint(n: int, q: int, bits: int, bit_base: int, target_base: int, offset: int) -> (Seq<Term>, Seq<Term>, Seq<Term>) {
    let i = q / (bits + 1);
    let r = q % (bits + 1);
    if r < bits {
        bit_constraint(Var::Witness((bit_base + bits * i + r) as usize))
    } else {
        decompose_constraint(bit_base + bits * i, bits, Var::Witness((target_base + i) as usize), offset)
    }
}

/// Constraint `idx` of the circuit for keys `pk0`, `pk1` of dimension `n`,
/// in the order the circuit enforces them: the `n` constraints of key 0,
/// the `n` of key 1, then the ranges of `e0` (5 bits), `e1` (5 bits), `m`
/// (8 bits), `delta0` and `delta1` (13 bits, offset 4096).
pub open spec fn circuit_constraint(pk0: Seq<i128>, pk1: Seq<i128>, n: int, idx: int) -> (Seq<Term>, Seq<Term>, Seq<Term>) {
    if idx < n {
        encryption_constraint(pk0, n, idx, 0)
    } else if idx < 2 * n {
        encryption_constraint(pk1, n, idx - n, 1)
    } else if idx < 8 * n {
        range_constraint(n, idx - 2 * n, 5, 6 * n, n, 0)
    } else if idx < 14 * n {
        range_constraint(n, idx - 8 * n, 5, 11 * n, 2 * n, 0)
    } else if idx < 23 * n {
        range_constraint(n, idx - 14 * n, 8, 16 * n, 5 * n, 0)
    } else if idx < 37 * n {
        range_constraint(n, idx - 23 * n, 13, 24 * n, 3 * n, 4096)
    } else {
        range_constraint(n, idx - 37 * n, 13, 37 * n, 4 * n, 4096)
    }
}

/// Constraints per coefficient.
pub const CONSTRAINTS_PER_COEFF: usize = 51;

/// Witnesses per coefficient.
pub const WITNESSES_PER_COEFF: usize = 50;

/// The circuit for the two key polynomials.
pub struct Circuit {
    pub num_dimension: usize,
    pub pk_0: Vec<i128>,
    pub pk_1: Vec<i128>,
}

impl Circuit {
    /// The sizes fit and the keys have a coefficient for every dimension
    /// the circuit reads.
    pub open spec fn wf(&self) -> bool {
        &&& 0 < self.num_dimension <= NUM_DIMENSION
        &&& self.pk_0.len() >= self.num_dimension
        &&& self.pk_1.len() >= self.num_dimension
    }

    /// The circuit of dimension `num_dimension` for the keys read from the
    /// lines of a key file, as `keyfile::read_tagged` reads the lines tagged
    /// `pk_0` and `pk_1`; the keys keep all `NUM_DIMENSION` coefficients and
    /// the circuit reads the first `num_dimension`. `None` where a key line
    /// does not fit.
    pub fn new(num_dimension: usize, key_lines: &Vec<Vec<u8>>) -> (c: Option<Self>)
        requires
            0 < num_dimension <= NUM_DIMENSION,
        ensures
            ({
                let lv = key_lines@.map_values(|v: Vec<u8>| v@);
                let tags = seq![seq![112u8, 107u8, 95u8, 48u8], seq![112u8, 107u8, 95u8, 49u8]];
                let st = keyfile::read_state(lv, tags, NUM_DIMENSION as int, lv.len() as int);
                &&& c is Some <==> forall|k: int|
                    0 <= k < lv.len() ==> keyfile::line_fits(#[trigger] lv[k], tags, NUM_DIMENSION as int)
                &&& c is Some ==> c->0.wf() && c->0.num_dimension == num_dimension
                    && c->0.pk_0@ == st[0] && c->0.pk_1@ == st[1]
                    && st[0].len() == NUM_DIMENSION && st[1].len() == NUM_DIMENSION
            }),
    {
        let mut tags: Vec<Vec<u8>> = Vec::new();
        tags.push(vec![112u8, 107u8, 95u8, 48u8]);
        tags.push(vec![112u8, 107u8, 95u8, 49u8]);
        let ghost lv = key_lines@.map_values(|v: Vec<u8>| v@);
        let ghost tv = tags@.map_values(|v: Vec<u8>| v@);
        assert(tv =~= seq![seq![112u8, 107u8, 95u8, 48u8], seq![112u8, 107u8, 95u8, 49u8]]);
        let mut polys = match keyfile::read_tagged(key_lines, &tags, NUM_DIMENSION) {
            Some(p) => p,
            None => return None,
        };
        proof {
            keyfile::lemma_read_state_shape(lv, tv, NUM_DIMENSION as int, lv.len() as int);
            assert(polys@.map_values(|v: Vec<i128>| v@)[0] == polys@[0]@);
            assert(polys@.map_values(|v: Vec<i128>| v@)[1] == polys@[1]@);
        }
        let ghost p0 = polys@[0]@;
        let ghost p1 = polys@[1]@;
        let pk_1 = polys.pop().unwrap();
        let pk_0 = polys.pop().unwrap();
        assert(pk_0@ == p0);
        assert(pk_1@ == p1);
        Some(Circuit { num_dimension, pk_0, pk_1 })
    }

    /// How many constraints the circuit has.
    pub fn num_constraints(&self) -> (k: usize)
        requires
            self.wf(),
        ensures
            k == CONSTRAINTS_PER_COEFF * self.num_dimension,
    {
        CONSTRAINTS_PER_COEFF * self.num_dimension
    }

    /// How many public inputs the circuit has: the two ciphertext polynomials.
    pub fn num_inputs(&self) -> (k: usize)
        requires
            self.wf(),
        ensures
            k == 2 * self.num_dimension,
    {
        2 * self.num_dimension
    }

    /// How many witnesses the circuit has.
    pub fn num_witnesses(&self) -> (k: usize)
        requires
            self.wf(),
        ensures
            k == WITNESSES_PER_COEFF * self.num_dimension,
    {
        WITNESSES_PER_COEFF * self.num_dimension
    }
}


pub(crate) proof fn lemma_two_pow_le(a: nat, b: nat)
    requires
        a <= b,
    ensures
        1 <= two_pow(a) <= two_pow(b),
    decreases b - a,
{
    if a < b {
        lemma_two_pow_le(a, (b - 1) as nat);
        assert(two_pow(b) == 2 * two_pow((b - 1) as nat));
    } else {
        lemma_two_pow_pos(a);
    }
}

proof fn lemma_two_pow_pos(a: nat)
    ensures
        two_pow(a) >= 1,
    decreases a,
{
    if a > 0 {
        lemma_two_pow_pos((a - 1) as nat);
    }
}

/// The terms of `key_terms`.
fn key_terms_exec(pk: &Vec<i128>, n: usize, i: usize) -> (ts: Vec<Term>)
    requires
        pk.len() >= n,
        i < n,
        n <= NUM_DIMENSION,
    ensures
        ts@ == key_terms(pk@, n as int, i as int),
{
    let mut ts: Vec<Term> = Vec::new();
    let mut k: usize = 0;
    while k < n
        invariant
            pk.len() >= n,
            i < n,
            n <= NUM_DIMENSION,
            k <= n,
            ts@ == key_terms(pk@, n as int, i as int).subrange(0, k as int),
        decreases n - k,
    {
        let j = if k <= i { i - k } else { i + n - k };
        ts.push(Term { coeff: pk[j], neg: k > i, shift: 0, var: Var::Witness(k) });
        k = k + 1;
        assert(ts@ =~= key_terms(pk@, n as int, i as int).subrange(0, k as int));
    }
    ts
}

/// Builds `encryption_constraint`.
fn encryption_constraint_exec(pk: &Vec<i128>, n: usize, i: usize, key: usize) -> (c: Constraint)
    requires
        pk.len() >= n,
        i < n,
        0 < n <= NUM_DIMENSION,
        key <= 1,
    ensures
        (c.a@, c.b@, c.c@) == encryption_constraint(pk@, n as int, i as int, key as int),
{
    let mut a = key_terms_exec(pk, n, i);
    if key == 0 {
        a.push(Term { coeff: 1, neg: false, shift: 0, var: Var::Witness(n + i) });
    } else {
        a.push(Term { coeff: 1, neg: false, shift: 0, var: Var::Witness(2 * n + i) });
        a.push(Term { coeff: 1, neg: false, shift: 0, var: Var::Witness(5 * n + i) });
    }
    let mut b: Vec<Term> = Vec::new();
    b.push(Term { coeff: 1, neg: false, shift: 0, var: Var::One });
    assert((3 + key) * n <= 4 * NUM_DIMENSION) by (nonlinear_arith)
        requires
            key <= 1,
            n <= NUM_DIMENSION,
    ;
    assert(key * n <= NUM_DIMENSION) by (nonlinear_arith)
        requires
            key <= 1,
            n <= NUM_DIMENSION,
    ;
    let mut c: Vec<Term> = Vec::new();
    c.push(Term { coeff: 1, neg: false, shift: 0, var: Var::Input(key * n + i) });
    c.push(Term { coeff: MODULUS, neg: false, shift: 0, var: Var::Witness((3 + key) * n + i) });
    let r = Constraint { a, b, c };
    assert(r.b@ =~= seq![unit(Var::One)]);
    assert(r.c@ =~= seq![
        unit(Var::Input((key * n + i) as usize)),
        Term { coeff: MODULUS, neg: false, shift: 0, var: Var::Witness(((3 + key) * n + i) as usize) },
    ]);
    r
}

/// Builds `bit_constraint`.
pub(crate) fn bit_constraint_exec(v: Var) -> (c: Constraint)
    ensures
        (c.a@, c.b@, c.c@) == bit_constraint(v),
{
    let mut a: Vec<Term> = Vec::new();
    a.push(Term { coeff: 1, neg: false, shift: 0, var: v });
    let mut b: Vec<Term> = Vec::new();
    b.push(Term { coeff: 1, neg: false, shift: 0, var: v });
    b.push(Term { coeff: 1, neg: true, shift: 0, var: Var::One });
    let c: Vec<Term> = Vec::new();
    let r = Constraint { a, b, c };
    assert(r.a@ =~= seq![unit(v)]);
    assert(r.b@ =~= seq![unit(v), Term { coeff: 1, neg: true, shift: 0, var: Var::One }]);
    assert(r.c@ =~= Seq::<Term>::empty());
    r
}

/// Builds `decompose_constraint`.
pub(crate) fn decompose_constraint_exec(base: usize, bits: usize, target: Var, offset: i128) -> (c: Constraint)
    requires
        bits <= 13,
        base + bits <= usize::MAX,
        offset >= 0,
    ensures
        (c.a@, c.b@, c.c@) == decompose_constraint(base as int, bits as int, target, offset as int),
{
    let mut a: Vec<Term> = Vec::new();
    let mut x: i128 = 1;
    let mut k: usize = 0;
    while k < bits
        invariant
            bits <= 13,
            base + bits <= usize::MAX,
            k <= bits,
            k < bits ==> x == two_pow(k as nat),
            x <= 4096,
            a@ == decompose_constraint(base as int, bits as int, target, offset as int).0.subrange(0, k as int),
        decreases bits - k,
    {
        a.push(Term { coeff: x, neg: false, shift: 0, var: Var::Witness(base + k) });
        proof {
            assert(two_pow((k + 1) as nat) == 2 * two_pow(k as nat));
            if k + 1 < bits {
                lemma_two_pow_le((k + 1) as nat, 12);
                assert(two_pow(12) == 4096) by {
                    reveal_with_fuel(two_pow, 13);
                }
            }
        }
        assert(a@ =~= decompose_constraint(base as int, bits as int, target, offset as int).0.subrange(0, k + 1));
        if k + 1 < bits {
            x = x + x;
        }
        k = k + 1;
    }
    let mut b: Vec<Term> = Vec::new();
    b.push(Term { coeff: 1, neg: false, shift: 0, var: Var::One });
    let mut c: Vec<Term> = Vec::new();
    c.push(Term { coeff: 1, neg: false, shift: 0, var: target });
    if offset != 0 {
        c.push(Term { coeff: offset, neg: false, shift: 0, var: Var::One });
    }
    let r = Constraint { a, b, c };
    assert(r.a@ =~= decompose_constraint(base as int, bits as int, target, offset as int).0);
    assert(r.b@ =~= seq![unit(Var::One)]);
    if offset == 0 {
        assert(r.c@ =~= seq![unit(target)]);
    } else {
        assert(r.c@ =~= seq![unit(target), Term { coeff: offset, neg: false, shift: 0, var: Var::One }]);
    }
    r
}

/// Builds `range_constraint`.
pub(crate) fn range_constraint_exec(n: usize, q: usize, bits: usize, bit_base: usize, target_base: usize, offset: i128) -> (c: Constraint)
    requires
        0 < n <= NUM_DIMENSION,
        1 <= bits <= 13,
        q < n * (bits + 1),
        bit_base + bits * n <= 50 * NUM_DIMENSION,
        target_base + n <= 50 * NUM_DIMENSION,
        offset >= 0,
    ensures
        (c.a@, c.b@, c.c@) == range_constraint(n as int, q as int, bits as int, bit_base as int, target_base as int, offset as int),
{
    let i = q / (bits + 1);
    let r = q % (bits + 1);
    proof {
        assert(i < n) by (nonlinear_arith)
            requires
                q < n * (bits + 1),
                i as int == q as int / (bits as int + 1),
                bits >= 1,
        ;
        assert(bits * i <= bits * (n - 1)) by (nonlinear_arith)
            requires
                i < n,
        ;
        assert(bits * (n - 1) + bits == bits * n) by (nonlinear_arith);
    }
    if r < bits {
        bit_constraint_exec(Var::Witness(bit_base + bits * i + r))
    } else {
        decompose_constraint_exec(bit_base + bits * i, bits, Var::Witness(target_base + i), offset)
    }
}

impl Circuit {
    /// Constraint `idx` of the circuit, as `circuit_constraint` says.
    pub fn constraint_at(&self, idx: usize) -> (c: Constraint)
        requires
            self.wf(),
            idx < CONSTRAINTS_PER_COEFF * self.num_dimension,
        ensures
            (c.a@, c.b@, c.c@) == circuit_constraint(self.pk_0@, self.pk_1@, self.num_dimension as int, idx as int),
    {
        let n = self.num_dimension;
        if idx < n {
            encryption_constraint_exec(&self.pk_0, n, idx, 0)
        } else if idx < 2 * n {
            encryption_constraint_exec(&self.pk_1, n, idx - n, 1)
        } else if idx < 8 * n {
            range_constraint_exec(n, idx - 2 * n, 5, 6 * n, n, 0)
        } else if idx < 14 * n {
            range_constraint_exec(n, idx - 8 * n, 5, 11 * n, 2 * n, 0)
        } else if idx < 23 * n {
            range_constraint_exec(n, idx - 14 * n, 8, 16 * n, 5 * n, 0)
        } else if idx < 37 * n {
            range_constraint_exec(n, idx - 23 * n, 13, 24 * n, 3 * n, 4096)
        } else {
            range_constraint_exec(n, idx - 37 * n, 13, 37 * n, 4 * n, 4096)
        }
    }
}


/// The public inputs of an honest prover: both ciphertext polynomials.
pub open spec fn honest_inputs(c0: Seq<i128>, c1: Seq<i128>) -> Seq<int> {
    c0.map_values(|x: i128| x as int) + c1.map_values(|x: i128| x as int)
}

/// The first witnesses of an honest prover, `NUM_DIMENSION` of each: the
/// randomness, both noises, both quotients and the message.
pub open spec fn honest_witnesses(
    r: Seq<i128>,
    e0: Seq<i128>,
    e1: Seq<i128>,
    d0: Seq<i32>,
    d1: Seq<i32>,
    m: Seq<u8>,
) -> Seq<int> {
    let n = NUM_DIMENSION as int;
    r.subrange(0, n).map_values(|x: i128| x as int) + e0.subrange(0, n).map_values(|x: i128| x as int)
        + e1.subrange(0, n).map_values(|x: i128| x as int) + d0.subrange(0, n).map_values(|x: i32| x as int)
        + d1.subrange(0, n).map_values(|x: i32| x as int) + m.subrange(0, n).map_values(|x: u8| x as int)
}

pub(crate) proof fn lemma_lc_push(ts: Seq<Term>, t: Term, inputs: Seq<int>, wits: Seq<int>)
    ensures
        lc_value(ts.push(t), inputs, wits) == lc_value(ts, inputs, wits) + coeff_value(t) * var_value(t.var, inputs, wits),
        coeff_value(t) == 1 ==> lc_value(ts.push(t), inputs, wits) == lc_value(ts, inputs, wits) + var_value(t.var, inputs, wits),
{
    assert(ts.push(t).drop_last() =~= ts);
    let c = coeff_value(t);
    let v = var_value(t.var, inputs, wits);
    if c == 1 {
        assert(c * v == v) by (nonlinear_arith)
            requires
                c == 1,
        ;
    }
}

proof fn lemma_key_terms_row(pk: PublicKey, p: Seq<i128>, mat: Seq<i128>, r: Seq<i128>, wits: Seq<int>, inputs: Seq<int>, i: int, k: int)
    requires
        p.len() == NUM_DIMENSION,
        rlwe::is_negacyclic_matrix(mat, p),
        r.len() >= NUM_DIMENSION,
        wits.len() >= NUM_DIMENSION,
        forall|t: int| 0 <= t < NUM_DIMENSION ==> #[trigger] wits[t] == r[t] as int,
        0 <= i < NUM_DIMENSION,
        0 <= k <= NUM_DIMENSION,
    ensures
        lc_value(key_terms(p, NUM_DIMENSION as int, i).subrange(0, k), inputs, wits) == rlwe::row_dot(mat, r, i, k),
    decreases k,
{
    let n = NUM_DIMENSION as int;
    let ts = key_terms(p, n, i);
    if k > 0 {
        lemma_key_terms_row(pk, p, mat, r, wits, inputs, i, k - 1);
        assert(ts.subrange(0, k).drop_last() =~= ts.subrange(0, k - 1));
        let j = k - 1;
        let t = ts[j];
        assert(ts.subrange(0, k).last() == t);
        assert(var_value(t.var, inputs, wits) == r[j] as int);
        assert(mat[i * n + j] as int == rlwe::negacyclic_entry(p, i, j));
        if j <= i {
            vstd::arithmetic::div_mod::lemma_fundamental_div_mod_converse(i - j, n, 0, i - j);
            assert(coeff_value(t) == rlwe::negacyclic_entry(p, i, j));
        } else {
            vstd::arithmetic::div_mod::lemma_fundamental_div_mod_converse(i - j, n, -1, i - j + n);
            assert(coeff_value(t) == rlwe::negacyclic_entry(p, i, j));
        }
        assert(coeff_value(t) * var_value(t.var, inputs, wits) == (r[j] as int) * (mat[i * n + j] as int)) by (nonlinear_arith)
            requires
                coeff_value(t) == mat[i * n + j] as int,
                var_value(t.var, inputs, wits) == r[j] as int,
        ;
    } else {
        assert(ts.subrange(0, 0) =~= Seq::<Term>::empty());
    }
}

/// The encryption constraints at `i` hold under any assignment that starts
/// with the honest witnesses.
proof fn lemma_encryption_holds_under(
    pk: PublicKey,
    p0: Seq<i128>,
    p1: Seq<i128>,
    msg: Seq<u8>,
    r: Seq<i128>,
    e0: Seq<i128>,
    e1: Seq<i128>,
    d0: Seq<i32>,
    d1: Seq<i32>,
    c0: Seq<i128>,
    c1: Seq<i128>,
    i: int,
    wits: Seq<int>,
)
    requires
        wits.len() >= 6 * NUM_DIMENSION,
        forall|t: int| 0 <= t < 6 * NUM_DIMENSION ==> wits[t] == #[trigger] honest_witnesses(r, e0, e1, d0, d1, msg)[t],
        p0.len() == NUM_DIMENSION,
        p1.len() == NUM_DIMENSION,
        rlwe::is_negacyclic_matrix(pk.pk_0@, p0),
        rlwe::is_negacyclic_matrix(pk.pk_1@, p1),
        msg.len() >= NUM_DIMENSION,
        e0.len() >= NUM_DIMENSION,
        e1.len() >= NUM_DIMENSION,
        client::encrypts(pk, msg, r, e0, e1, d0, d1, c0, c1),
        0 <= i < NUM_DIMENSION,
    ensures
        holds(
            circuit_constraint(p0, p1, NUM_DIMENSION as int, i),
            honest_inputs(c0, c1),
            wits,
        ),
        holds(
            circuit_constraint(p0, p1, NUM_DIMENSION as int, NUM_DIMENSION + i),
            honest_inputs(c0, c1),
            wits,
        ),
{
    let n = NUM_DIMENSION as int;
    let inputs = honest_inputs(c0, c1);
    let hw = honest_witnesses(r, e0, e1, d0, d1, msg);
    let mm = MODULUS as int;
    assert(hw.len() == 6 * n);
    assert(inputs.len() == 2 * n);
    assert forall|t: int| 0 <= t < n implies #[trigger] wits[t] == r[t] as int by {
        assert(wits[t] == hw[t]);
    }
    assert(wits[n + i] == hw[n + i]);
    assert(wits[2 * n + i] == hw[2 * n + i]);
    assert(wits[3 * n + i] == hw[3 * n + i]);
    assert(wits[4 * n + i] == hw[4 * n + i]);
    assert(wits[5 * n + i] == hw[5 * n + i]);
    assert(wits[n + i] == e0[i] as int);
    assert(wits[2 * n + i] == e1[i] as int);
    assert(wits[3 * n + i] == d0[i] as int);
    assert(wits[4 * n + i] == d1[i] as int);
    assert(wits[5 * n + i] == msg[i] as int);
    assert(inputs[i] == c0[i] as int);
    assert(inputs[n + i] == c1[i] as int);
    lemma_key_terms_row(pk, p0, pk.pk_0@, r, wits, inputs, i, n);
    lemma_key_terms_row(pk, p1, pk.pk_1@, r, wits, inputs, i, n);
    let ts0 = key_terms(p0, n, i);
    let ts1 = key_terms(p1, n, i);
    assert(ts0.subrange(0, n) =~= ts0);
    assert(ts1.subrange(0, n) =~= ts1);
    let a0 = rlwe::encrypted_value(pk.pk_0@, r, e0, 0, i);
    let a1 = rlwe::encrypted_value(pk.pk_1@, r, e1, msg[i] as int, i);
    vstd::arithmetic::div_mod::lemma_fundamental_div_mod(a0, mm);
    vstd::arithmetic::div_mod::lemma_fundamental_div_mod(a1, mm);
    let k0 = encryption_constraint(p0, n, i, 0);
    let k1 = encryption_constraint(p1, n, i, 1);
    // key 0
    assert(lc_value(Seq::<Term>::empty(), inputs, wits) == 0);
    assert(k0.0 == ts0.push(unit(Var::Witness((n + i) as usize))));
    assert(k0.0.drop_last() =~= ts0);
    assert(k0.0.last() == unit(Var::Witness((n + i) as usize)));
    assert(var_value(k0.0.last().var, inputs, wits) == e0[i] as int);
    assert(lc_value(ts0, inputs, wits) == rlwe::row_dot(pk.pk_0@, r, i, n));
    lemma_lc_push(ts0, unit(Var::Witness((n + i) as usize)), inputs, wits);
    assert(coeff_value(unit(Var::Witness((n + i) as usize))) == 1);
    assert(var_value(unit(Var::Witness((n + i) as usize)).var, inputs, wits) == e0[i] as int);
    assert(lc_value(k0.0, inputs, wits) == lc_value(ts0, inputs, wits) + e0[i] as int);
    assert(lc_value(k0.0, inputs, wits) == a0);
    assert(k0.1.drop_last() =~= Seq::<Term>::empty());
    assert(k0.1.last() == unit(Var::One));
    assert(lc_value(k0.1, inputs, wits) == 1);
    assert(k0.2 == seq![
        unit(Var::Input(i as usize)),
        Term { coeff: MODULUS, neg: false, shift: 0, var: Var::Witness((3 * n + i) as usize) },
    ]);
    assert(k0.2.drop_last().drop_last() =~= Seq::<Term>::empty());
    assert(k0.2.drop_last() =~= seq![unit(Var::Input(i as usize))]);
    lemma_lc_push(Seq::<Term>::empty(), unit(Var::Input(i as usize)), inputs, wits);
    assert(seq![unit(Var::Input(i as usize))] =~= Seq::<Term>::empty().push(unit(Var::Input(i as usize))));
    assert(coeff_value(unit(Var::Input(i as usize))) == 1);
    assert(var_value(unit(Var::Input(i as usize)).var, inputs, wits) == c0[i] as int);
    assert(lc_value(k0.2.drop_last(), inputs, wits) == c0[i] as int);
    assert(var_value(k0.2.last().var, inputs, wits) == d0[i] as int);
    assert(lc_value(k0.2, inputs, wits) == c0[i] as int + mm * (d0[i] as int));
    assert(lc_value(k0.0, inputs, wits) * lc_value(k0.1, inputs, wits) - lc_value(k0.2, inputs, wits) == 0);
    assert(circuit_constraint(p0, p1, n, i) == k0);
    // key 1
    assert(k1.0 == ts1.push(unit(Var::Witness((2 * n + i) as usize))).push(unit(Var::Witness((5 * n + i) as usize))));
    assert(k1.0.drop_last().drop_last() =~= ts1);
    lemma_lc_push(ts1, unit(Var::Witness((2 * n + i) as usize)), inputs, wits);
    lemma_lc_push(ts1.push(unit(Var::Witness((2 * n + i) as usize))), unit(Var::Witness((5 * n + i) as usize)), inputs, wits);
    assert(lc_value(ts1, inputs, wits) == rlwe::row_dot(pk.pk_1@, r, i, n));
    assert(lc_value(k1.0, inputs, wits) == a1);
    assert(k1.1.drop_last() =~= Seq::<Term>::empty());
    assert(k1.2.drop_last().drop_last() =~= Seq::<Term>::empty());
    assert(k1.2 == seq![
        unit(Var::Input((n + i) as usize)),
        Term { coeff: MODULUS, neg: false, shift: 0, var: Var::Witness((4 * n + i) as usize) },
    ]);
    assert(k1.2.drop_last() =~= seq![unit(Var::Input((n + i) as usize))]);
    lemma_lc_push(Seq::<Term>::empty(), unit(Var::Input((n + i) as usize)), inputs, wits);
    assert(seq![unit(Var::Input((n + i) as usize))] =~= Seq::<Term>::empty().push(unit(Var::Input((n + i) as usize))));
    assert(lc_value(k1.2.drop_last(), inputs, wits) == c1[i] as int);
    assert(var_value(k1.2.last().var, inputs, wits) == d1[i] as int);
    assert(lc_value(k1.2, inputs, wits) == c1[i] as int + mm * (d1[i] as int));
    assert(lc_value(k1.0, inputs, wits) * lc_value(k1.1, inputs, wits) - lc_value(k1.2, inputs, wits) == 0);
    assert(circuit_constraint(p0, p1, n, n + i) == k1);
}

/// An honestly made ciphertext satisfies its encryption constraints: for the
/// keys `p0`, `p1` of a public key and every coefficient `i`, the
/// constraints of key 0 and key 1 at `i` hold under the honest assignment
/// (the ciphertext as inputs; randomness, noises, quotients and message as
/// the first witnesses).
pub proof fn lemma_honest_encryption_holds(
    pk: PublicKey,
    p0: Seq<i128>,
    p1: Seq<i128>,
    msg: Seq<u8>,
    r: Seq<i128>,
    e0: Seq<i128>,
    e1: Seq<i128>,
    d0: Seq<i32>,
    d1: Seq<i32>,
    c0: Seq<i128>,
    c1: Seq<i128>,
    i: int,
)
    requires
        p0.len() == NUM_DIMENSION,
        p1.len() == NUM_DIMENSION,
        rlwe::is_negacyclic_matrix(pk.pk_0@, p0),
        rlwe::is_negacyclic_matrix(pk.pk_1@, p1),
        msg.len() >= NUM_DIMENSION,
        e0.len() >= NUM_DIMENSION,
        e1.len() >= NUM_DIMENSION,
        client::encrypts(pk, msg, r, e0, e1, d0, d1, c0, c1),
        0 <= i < NUM_DIMENSION,
    ensures
        holds(
            circuit_constraint(p0, p1, NUM_DIMENSION as int, i),
            honest_inputs(c0, c1),
            honest_witnesses(r, e0, e1, d0, d1, msg),
        ),
        holds(
            circuit_constraint(p0, p1, NUM_DIMENSION as int, NUM_DIMENSION + i),
            honest_inputs(c0, c1),
            honest_witnesses(r, e0, e1, d0, d1, msg),
        ),
{
    let hw = honest_witnesses(r, e0, e1, d0, d1, msg);
    assert(hw.len() == 6 * NUM_DIMENSION);
    lemma_encryption_holds_under(pk, p0, p1, msg, r, e0, e1, d0, d1, c0, c1, i, hw);
}

/// The whole honest assignment of the circuit: the randomness, both noises,
/// both quotients and the message, then the bits of each noise (5 per
/// coefficient), of the message (8), and of each quotient plus 4096 (13).
pub open spec fn honest_assignment(
    r: Seq<i128>,
    e0: Seq<i128>,
    e1: Seq<i128>,
    d0: Seq<i32>,
    d1: Seq<i32>,
    m: Seq<u8>,
) -> Seq<int> {
    let n = NUM_DIMENSION as int;
    honest_witnesses(r, e0, e1, d0, d1, m)
        + Seq::new((5 * n) as nat, |q: int| offline::bit_of(e0[q / 5], q % 5))
        + Seq::new((5 * n) as nat, |q: int| offline::bit_of(e1[q / 5], q % 5))
        + Seq::new((8 * n) as nat, |q: int| offline::bit_of(m[q / 8] as i128, q % 8))
        + Seq::new((13 * n) as nat, |q: int| offline::bit_of((d0[q / 13] + 4096) as i128, q % 13))
        + Seq::new((13 * n) as nat, |q: int| offline::bit_of((d1[q / 13] + 4096) as i128, q % 13))
}

/// The witness at `base + bits * i + k` of a bit block is bit `k` of
/// value `i`.
proof fn lemma_bit_block_index(bits: int, i: int, k: int)
    requires
        bits > 0,
        0 <= i,
        0 <= k < bits,
    ensures
        (bits * i + k) / bits == i,
        (bits * i + k) % bits == k,
{
    assert(bits * i == i * bits) by (nonlinear_arith);
    vstd::arithmetic::div_mod::lemma_fundamental_div_mod_converse(bits * i + k, bits, i, k);
}

/// An honest prover satisfies the whole circuit: for a ciphertext made by
/// `encrypt` from the keys `p0`, `p1`, with noises in `[0, 32)` and
/// quotients in `[-4096, 4096)`, every constraint (the encryption equations
/// of both keys and the ranges of both noises, of the message and of both
/// quotients, each quotient decomposed as `delta + 4096`) holds under
/// `honest_assignment`, the ciphertext as the public inputs.
pub proof fn lemma_honest_circuit_holds(
    pk: PublicKey,
    p0: Seq<i128>,
    p1: Seq<i128>,
    msg: Seq<u8>,
    r: Seq<i128>,
    e0: Seq<i128>,
    e1: Seq<i128>,
    d0: Seq<i32>,
    d1: Seq<i32>,
    c0: Seq<i128>,
    c1: Seq<i128>,
    idx: int,
)
    requires
        p0.len() == NUM_DIMENSION,
        p1.len() == NUM_DIMENSION,
        rlwe::is_negacyclic_matrix(pk.pk_0@, p0),
        rlwe::is_negacyclic_matrix(pk.pk_1@, p1),
        msg.len() >= NUM_DIMENSION,
        e0.len() >= NUM_DIMENSION,
        e1.len() >= NUM_DIMENSION,
        client::encrypts(pk, msg, r, e0, e1, d0, d1, c0, c1),
        forall|k: int| 0 <= k < NUM_DIMENSION ==> 0 <= #[trigger] e0[k] < 32,
        forall|k: int| 0 <= k < NUM_DIMENSION ==> 0 <= #[trigger] e1[k] < 32,
        forall|k: int| 0 <= k < NUM_DIMENSION ==> -4096 <= #[trigger] d0[k] < 4096,
        forall|k: int| 0 <= k < NUM_DIMENSION ==> -4096 <= #[trigger] d1[k] < 4096,
        0 <= idx < CONSTRAINTS_PER_COEFF * NUM_DIMENSION,
    ensures
        holds(
            circuit_constraint(p0, p1, NUM_DIMENSION as int, idx),
            honest_inputs(c0, c1),
            honest_assignment(r, e0, e1, d0, d1, msg),
        ),
{
    let n = NUM_DIMENSION as int;
    let inputs = honest_inputs(c0, c1);
    let hw = honest_witnesses(r, e0, e1, d0, d1, msg);
    let w = honest_assignment(r, e0, e1, d0, d1, msg);
    assert(hw.len() == 6 * n);
    assert(w.len() == 50 * n);
    assert forall|t: int| 0 <= t < 6 * n implies w[t] == #[trigger] hw[t] by {}
    if idx < 2 * n {
        let i = if idx < n { idx } else { idx - n };
        lemma_encryption_holds_under(pk, p0, p1, msg, r, e0, e1, d0, d1, c0, c1, i, w);
    } else if idx < 8 * n {
        let vals = e0.subrange(0, n);
        assert forall|i: int, k: int| 0 <= i < n && 0 <= k < 5 implies #[trigger] offline::bit_of(vals[i], k)
            == w[6 * n + 5 * i + k] by {
            lemma_bit_block_index(5, i, k);
        }
        assert forall|i: int| 0 <= i < n implies w[n + i] + 0 == #[trigger] vals[i] by {
            assert(w[n + i] == hw[n + i]);
        }
        offline::lemma_range_group_holds(inputs, w, n, idx - 2 * n, 5, 6 * n, n, 0, vals);
    } else if idx < 14 * n {
        let vals = e1.subrange(0, n);
        assert forall|i: int, k: int| 0 <= i < n && 0 <= k < 5 implies #[trigger] offline::bit_of(vals[i], k)
            == w[11 * n + 5 * i + k] by {
            lemma_bit_block_index(5, i, k);
        }
        assert forall|i: int| 0 <= i < n implies w[2 * n + i] + 0 == #[trigger] vals[i] by {
            assert(w[2 * n + i] == hw[2 * n + i]);
        }
        offline::lemma_range_group_holds(inputs, w, n, idx - 8 * n, 5, 11 * n, 2 * n, 0, vals);
    } else if idx < 23 * n {
        let vals = Seq::new(n as nat, |i: int| msg[i] as i128);
        assert forall|i: int, k: int| 0 <= i < n && 0 <= k < 8 implies #[trigger] offline::bit_of(vals[i], k)
            == w[16 * n + 8 * i + k] by {
            lemma_bit_block_index(8, i, k);
        }
        assert forall|i: int| 0 <= i < n implies w[5 * n + i] + 0 == #[trigger] vals[i] by {
            assert(w[5 * n + i] == hw[5 * n + i]);
        }
        offline::lemma_range_group_holds(inputs, w, n, idx - 14 * n, 8, 16 * n, 5 * n, 0, vals);
    } else if idx < 37 * n {
        let vals = Seq::new(n as nat, |i: int| (d0[i] + 4096) as i128);
        assert forall|i: int, k: int| 0 <= i < n && 0 <= k < 13 implies #[trigger] offline::bit_of(vals[i], k)
            == w[24 * n + 13 * i + k] by {
            lemma_bit_block_index(13, i, k);
        }
        assert forall|i: int| 0 <= i < n implies w[3 * n + i] + 4096 == #[trigger] vals[i] by {
            assert(w[3 * n + i] == hw[3 * n + i]);
            assert(-4096 <= d0[i] < 4096);
        }
        offline::lemma_range_group_holds(inputs, w, n, idx - 23 * n, 13, 24 * n, 3 * n, 4096, vals);
    } else {
        let vals = Seq::new(n as nat, |i: int| (d1[i] + 4096) as i128);
        assert forall|i: int, k: int| 0 <= i < n && 0 <= k < 13 implies #[trigger] offline::bit_of(vals[i], k)
            == w[37 * n + 13 * i + k] by {
            lemma_bit_block_index(13, i, k);
        }
        assert forall|i: int| 0 <= i < n implies w[4 * n + i] + 4096 == #[trigger] vals[i] by {
            assert(w[4 * n + i] == hw[4 * n + i]);
            assert(-4096 <= d1[i] < 4096);
        }
        offline::lemma_range_group_holds(inputs, w, n, idx - 37 * n, 13, 37 * n, 4 * n, 4096, vals);
    }
}

} // verus!
