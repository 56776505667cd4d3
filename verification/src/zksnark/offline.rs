//! The offline proof's constraint system: the randomness as bits, packed
//! into field elements, the key-0 encryption constraints over those bits,
//! and the ranges of the noise and the quotient; `lemma_honest_offline_holds`
//! proves that an honest prover satisfies all of them. The Poseidon hash
//! that commits to the packed elements is not among these constraints: its
//! gadget works over the field and constraint-system traits of the proving
//! crates, and neither this crate nor its program adds it.
use vstd::prelude::*;
use crate::keyfile;
use crate::rlwe::{MODULUS, NUM_DIMENSION};
use crate::zksnark::{
    self as zk, Constraint, Term, Var, bit_constraint, decompose_constraint, range_constraint, unit,
};

verus! {

/// How many randomness bits one packed element takes, past the first.
pub const PACK: usize = 255;

/// How many packed elements `2n` bits make: the first bit alone, then
/// groups of `PACK`, the last one possibly shorter.
pub open spec fn num_packs(n: int) -> int {
    let rest = 2 * n - 1;
    1 + rest / (PACK as int) + (if rest % (PACK as int) > 0 { 1int } else { 0int })
}

/// The first bit of pack `g`.
pub open spec fn pack_start(g: int) -> int {
    if g == 0 { 0 } else { (PACK as int) * (g - 1) + 1 }
}

/// How many bits pack `g` takes out of `2n`.
pub open spec fn pack_len(n: int, g: int) -> int {
    if g == 0 {
        1
    } else {
        let rest = 2 * n - pack_start(g);
        if rest < PACK as int { rest } else { PACK as int }
    }
}

/// The terms `2^k * w[start + k]`, `k < len`.
pub open spec fn weighted_bits(start: int, len: int) -> Seq<Term> {
    Seq::new(len as nat, |k: int| Term { coeff: 1, neg: false, shift: k as u32, var: Var::Witness((start + k) as usize) })
}

/// Pack `g` is the weighted sum of its bits: `sum 2^k * bit = packed[g]`.
pub open spec fn pack_constraint(n: int, g: int) -> (Seq<Term>, Seq<Term>, Seq<Term>) {
    (weighted_bits(pack_start(g), pack_len(n, g)), seq![unit(Var::One)], seq![unit(Var::Witness((2 * n + g) as usize))])
}

/// The terms of `(pk * r)[i]` with `r[k] = b0[k] + 2 * b1[k]`, the bits of
/// coefficient `k` at witnesses `2k` and `2k + 1`.
pub open spec fn bit_key_terms(pk: Seq<i128>, n: int, i: int) -> Seq<Term> {
    Seq::new(
        (2 * n) as nat,
        |t: int|
            {
                let k = t / 2;
                let j = if k <= i { i - k } else { i - k + n };
                Term { coeff: pk[j], neg: k > i, shift: (t % 2) as u32, var: Var::Witness(t as usize) }
            },
    )
}

/// Constraint `i` of the key: `(pk * r)[i] + e[i] = c[i] + q * delta[i]`.
pub open spec fn offline_encryption_constraint(pk: Seq<i128>, n: int, i: int) -> (Seq<Term>, Seq<Term>, Seq<Term>) {
    let a_ = num_packs(n);
    (
        bit_key_terms(pk, n, i).push(unit(Var::Witness((2 * n + a_ + i) as usize))),
        seq![unit(Var::One)],
        seq![
            unit(Var::Input(i as usize)),
            Term { coeff: MODULUS, neg: false, shift: 0, var: Var::Witness((3 * n + a_ + i) as usize) },
        ],
    )
}

/// Constraint `idx` of the offline circuit: the packs, then the key-0
/// encryption constraints, then the ranges of `e0` (5 bits) and `delta0`
/// (13 bits, offset 4096).
pub open spec fn offline_constraint(pk: Seq<i128>, n: int, idx: int) -> (Seq<Term>, Seq<Term>, Seq<Term>) {
    let a_ = num_packs(n);
    if idx < a_ {
        pack_constraint(n, idx)
    } else if idx < a_ + n {
        offline_encryption_constraint(pk, n, idx - a_)
    } else if idx < a_ + 7 * n {
        range_constraint(n, idx - a_ - n, 5, 4 * n + a_, 2 * n + a_, 0)
    } else {
        range_constraint(n, idx - a_ - 7 * n, 13, 9 * n + a_, 3 * n + a_, 4096)
    }
}

/// The value a witness takes: a number, or the weighted sum
/// `sum_{k < len} 2^k * w[start + k]` of earlier witnesses.
#[derive(Debug, Clone, Copy, PartialEq, Eq, Structural)]
pub enum WitnessValue {
    Int(i128),
    Packed { start: usize, len: usize },
}

/// The offline circuit for one ciphertext and its secrets.
pub struct CircuitOffline {
    pub num_dimension: usize,
    pub c_0: Vec<i128>,
    pub r: Vec<i128>,
    pub e_0: Vec<i128>,
    pub pk_0: Vec<i128>,
    pub delta_0: Vec<i128>,
    pub nonce: [u8; 32],
    pub hash: [u8; 32],
}

/// The value of witness `idx` of the offline circuit: the bits `r & 1` and
/// `r & 2` of each randomness coefficient, the packs, `e0`, `delta0`, and
/// the bits of `e0` and of `delta0 + 4096`.
pub open spec fn offline_witness(c: CircuitOffline, idx: int) -> WitnessValue {
    let n = c.num_dimension as int;
    let a_ = num_packs(n);
    if idx < 2 * n {
        let k = idx / 2;
        if idx % 2 == 0 { WitnessValue::Int(c.r@[k] & 1) } else { WitnessValue::Int(c.r@[k] & 2) }
    } else if idx < 2 * n + a_ {
        let g = idx - 2 * n;
        WitnessValue::Packed { start: pack_start(g) as usize, len: pack_len(n, g) as usize }
    } else if idx < 3 * n + a_ {
        WitnessValue::Int(c.e_0@[idx - 2 * n - a_])
    } else if idx < 4 * n + a_ {
        WitnessValue::Int(c.delta_0@[idx - 3 * n - a_])
    } else if idx < 9 * n + a_ {
        let q = idx - 4 * n - a_;
        let i = q / 5;
        let k = q % 5;
        WitnessValue::Int(if c.e_0@[i] & (1i128 << (k as i128)) == 0 { 0 } else { 1 })
    } else {
        let q = idx - 9 * n - a_;
        let i = q / 13;
        let k = q % 13;
        WitnessValue::Int(if ((c.delta_0@[i] + 4096) as i128) & (1i128 << (k as i128)) == 0 { 0 } else { 1 })
    }
}

impl CircuitOffline {
    /// All vectors have one entry per dimension.
    pub open spec fn wf(&self) -> bool {
        &&& 0 < self.num_dimension <= NUM_DIMENSION
        &&& self.c_0.len() == self.num_dimension
        &&& self.r.len() == self.num_dimension
        &&& self.e_0.len() == self.num_dimension
        &&& self.pk_0.len() == self.num_dimension
        &&& self.delta_0.len() == self.num_dimension
    }

    /// How many packed elements the circuit has.
    pub fn num_packs(&self) -> (a: usize)
        requires
            self.wf(),
        ensures
            a == num_packs(self.num_dimension as int),
    {
        let rest = 2 * self.num_dimension - 1;
        1 + rest / PACK + (if rest % PACK > 0 { 1 } else { 0 })
    }

    /// How many constraints the circuit has, besides the hash.
    pub fn num_constraints(&self) -> (k: usize)
        requires
            self.wf(),
        ensures
            k == num_packs(self.num_dimension as int) + 21 * self.num_dimension,
    {
        self.num_packs() + 21 * self.num_dimension
    }

    /// How many witnesses the circuit has, besides the hash.
    pub fn num_witnesses(&self) -> (k: usize)
        requires
            self.wf(),
        ensures
            k == num_packs(self.num_dimension as int) + 22 * self.num_dimension,
    {
        self.num_packs() + 22 * self.num_dimension
    }
}


/// The terms of `bit_key_terms`.
fn bit_key_terms_exec(pk: &Vec<i128>, n: usize, i: usize) -> (ts: Vec<Term>)
    requires
        pk.len() == n,
        i < n,
        n <= NUM_DIMENSION,
    ensures
        ts@ == bit_key_terms(pk@, n as int, i as int),
{
    let mut ts: Vec<Term> = Vec::new();
    let mut t: usize = 0;
    while t < 2 * n
        invariant
            pk.len() == n,
            i < n,
            n <= NUM_DIMENSION,
            t <= 2 * n,
            ts@ == bit_key_terms(pk@, n as int, i as int).subrange(0, t as int),
        decreases 2 * n - t,
    {
        let k = t / 2;
        let j = if k <= i { i - k } else { i + n - k };
        ts.push(Term { coeff: pk[j], neg: k > i, shift: (t % 2) as u32, var: Var::Witness(t) });
        t = t + 1;
        assert(ts@ =~= bit_key_terms(pk@, n as int, i as int).subrange(0, t as int));
    }
    ts
}

/// The key and the line tags of the offline key file, in the order the
/// lines are told apart.
fn offline_tags() -> (t: Vec<Vec<u8>>)
    ensures
        t@.map_values(|v: Vec<u8>| v@) == offline_tag_seq(),
{
    let mut t: Vec<Vec<u8>> = Vec::new();
    t.push(vec![114u8]);
    t.push(vec![99u8, 95u8, 48u8]);
    t.push(vec![112u8, 107u8, 95u8, 48u8]);
    t.push(vec![101u8, 95u8, 48u8]);
    t.push(vec![100u8, 101u8, 108u8, 116u8, 97u8, 95u8, 48u8]);
    assert(t@[0]@ == seq![114u8]);
    assert(t@[1]@ == seq![99u8, 95u8, 48u8]);
    assert(t@[2]@ == seq![112u8, 107u8, 95u8, 48u8]);
    assert(t@[3]@ == seq![101u8, 95u8, 48u8]);
    assert(t@[4]@ == seq![100u8, 101u8, 108u8, 116u8, 97u8, 95u8, 48u8]);
    assert(t@.map_values(|v: Vec<u8>| v@) =~= offline_tag_seq());
    t
}

/// The tags `r`, `c_0`, `pk_0`, `e_0`, `delta_0`.
pub open spec fn offline_tag_seq() -> Seq<Seq<u8>> {
    seq![seq![114u8], seq![99u8, 95u8, 48u8], seq![112u8, 107u8, 95u8, 48u8], seq![101u8, 95u8, 48u8], seq![
        100u8,
        101u8,
        108u8,
        116u8,
        97u8,
        95u8,
        48u8,
    ]]
}

impl CircuitOffline {
    /// The circuit for the secrets read from the lines of a file: lines
    /// holding `r`, `c_0`, `pk_0`, `e_0` and `delta_0` (told apart in that
    /// order) give those vectors, `NUM_DIMENSION` entries each, as
    /// `keyfile::read_tagged` reads them. `None` where a line does not fit.
    pub fn new(lines: &Vec<Vec<u8>>) -> (c: Option<Self>)
        ensures
            ({
                let lv = lines@.map_values(|v: Vec<u8>| v@);
                let st = keyfile::read_state(lv, offline_tag_seq(), NUM_DIMENSION as int, lv.len() as int);
                &&& c is Some <==> forall|k: int|
                    0 <= k < lv.len() ==> keyfile::line_fits(#[trigger] lv[k], offline_tag_seq(), NUM_DIMENSION as int)
                &&& c is Some ==> {
                    let cc = c->0;
                    &&& cc.wf()
                    &&& cc.num_dimension == NUM_DIMENSION
                    &&& cc.r@ == st[0]
                    &&& cc.c_0@ == st[1]
                    &&& cc.pk_0@ == st[2]
                    &&& cc.e_0@ == st[3]
                    &&& cc.delta_0@ == st[4]
                    &&& cc.nonce@ == Seq::new(32, |i: int| 0u8)
                    &&& cc.hash@ == Seq::new(32, |i: int| 0u8)
                }
            }),
    {
        let tags = offline_tags();
        let ghost lv = lines@.map_values(|v: Vec<u8>| v@);
        let mut v = match keyfile::read_tagged(lines, &tags, NUM_DIMENSION) {
            Some(v) => v,
            None => return None,
        };
        proof {
            keyfile::lemma_read_state_shape(lv, offline_tag_seq(), NUM_DIMENSION as int, lv.len() as int);
            let m = v@.map_values(|x: Vec<i128>| x@);
            assert(m[0] == v@[0]@ && m[1] == v@[1]@ && m[2] == v@[2]@ && m[3] == v@[3]@ && m[4] == v@[4]@);
        }
        let ghost v0 = v@;
        let delta_0 = v.pop().unwrap();
        let e_0 = v.pop().unwrap();
        let pk_0 = v.pop().unwrap();
        let c_0 = v.pop().unwrap();
        let r = v.pop().unwrap();
        let nonce = [0u8; 32];
        let hash = [0u8; 32];
        assert(nonce@ =~= Seq::new(32, |i: int| 0u8));
        assert(hash@ =~= Seq::new(32, |i: int| 0u8));
        proof {
            assert(delta_0 == v0[4] && e_0 == v0[3] && pk_0 == v0[2] && c_0 == v0[1] && r == v0[0]);
        }
        Some(CircuitOffline { num_dimension: NUM_DIMENSION, c_0, r, e_0, pk_0, delta_0, nonce, hash })
    }

    /// Constraint `idx`, as `offline_constraint` says.
    pub fn constraint_at(&self, idx: usize) -> (c: Constraint)
        requires
            self.wf(),
            idx < num_packs(self.num_dimension as int) + 21 * self.num_dimension,
        ensures
            (c.a@, c.b@, c.c@) == offline_constraint(self.pk_0@, self.num_dimension as int, idx as int),
    {
        let n = self.num_dimension;
        let a_ = self.num_packs();
        proof {
            assert(a_ <= 2 * n + 1) by {
                let rest = 2 * n - 1;
                assert(rest / 255 <= rest);
            }
        }
        if idx < a_ {
            let g = idx;
            proof {
                if g > 0 {
                    let rest = 2 * n - 1;
                    assert(g - 1 <= rest / 255);
                    assert(255 * (g - 1) <= rest) by (nonlinear_arith)
                        requires
                            g - 1 <= rest / 255,
                            rest >= 0,
                    ;
                }
            }
            let start: usize = if g == 0 { 0 } else { PACK * (g - 1) + 1 };
            let len: usize = if g == 0 {
                1
            } else if 2 * n - start < PACK {
                2 * n - start
            } else {
                PACK
            };
            let mut a: Vec<Term> = Vec::new();
            let mut k: usize = 0;
            while k < len
                invariant
                    k <= len,
                    len <= PACK,
                    start + len <= 2 * NUM_DIMENSION + 1,
                    a@ == weighted_bits(start as int, len as int).subrange(0, k as int),
                decreases len - k,
            {
                a.push(Term { coeff: 1, neg: false, shift: k as u32, var: Var::Witness(start + k) });
                k = k + 1;
                assert(a@ =~= weighted_bits(start as int, len as int).subrange(0, k as int));
            }
            let mut b: Vec<Term> = Vec::new();
            b.push(Term { coeff: 1, neg: false, shift: 0, var: Var::One });
            let mut c: Vec<Term> = Vec::new();
            c.push(Term { coeff: 1, neg: false, shift: 0, var: Var::Witness(2 * n + g) });
            let r = Constraint { a, b, c };
            assert(r.a@ =~= weighted_bits(start as int, len as int));
            assert(r.b@ =~= seq![unit(Var::One)]);
            assert(r.c@ =~= seq![unit(Var::Witness((2 * n + g) as usize))]);
            r
        } else if idx < a_ + n {
            let i = idx - a_;
            let mut a = bit_key_terms_exec(&self.pk_0, n, i);
            a.push(Term { coeff: 1, neg: false, shift: 0, var: Var::Witness(2 * n + a_ + i) });
            let mut b: Vec<Term> = Vec::new();
            b.push(Term { coeff: 1, neg: false, shift: 0, var: Var::One });
            let mut c: Vec<Term> = Vec::new();
            c.push(Term { coeff: 1, neg: false, shift: 0, var: Var::Input(i) });
            c.push(Term { coeff: MODULUS, neg: false, shift: 0, var: Var::Witness(3 * n + a_ + i) });
            let r = Constraint { a, b, c };
            assert(r.b@ =~= seq![unit(Var::One)]);
            assert(r.c@ =~= seq![
                unit(Var::Input(i as usize)),
                Term { coeff: MODULUS, neg: false, shift: 0, var: Var::Witness((3 * n + a_ + i) as usize) },
            ]);
            r
        } else if idx < a_ + 7 * n {
            zk::range_constraint_exec(n, idx - a_ - n, 5, 4 * n + a_, 2 * n + a_, 0)
        } else {
            zk::range_constraint_exec(n, idx - a_ - 7 * n, 13, 9 * n + a_, 3 * n + a_, 4096)
        }
    }

    /// The value of witness `idx`, as `offline_witness` says. The quotients
    /// must leave room for the offset of their range.
    pub fn witness_at(&self, idx: usize) -> (w: WitnessValue)
        requires
            self.wf(),
            idx < num_packs(self.num_dimension as int) + 22 * self.num_dimension,
            forall|k: int| 0 <= k < self.delta_0.len() ==> #[trigger] self.delta_0@[k] <= i128::MAX - 4096,
        ensures
            w == offline_witness(*self, idx as int),
    {
        let n = self.num_dimension;
        let a_ = self.num_packs();
        proof {
            assert(a_ <= 2 * n + 1) by {
                let rest = 2 * n - 1;
                assert(rest / 255 <= rest);
            }
        }
        if idx < 2 * n {
            let k = idx / 2;
            if idx % 2 == 0 { WitnessValue::Int(self.r[k] & 1) } else { WitnessValue::Int(self.r[k] & 2) }
        } else if idx < 2 * n + a_ {
            let g = idx - 2 * n;
            proof {
                if g > 0 {
                    let rest = 2 * n - 1;
                    assert(g - 1 <= rest / 255);
                    assert(255 * (g - 1) <= rest) by (nonlinear_arith)
                        requires
                            g - 1 <= rest / 255,
                            rest >= 0,
                    ;
                }
            }
            let start: usize = if g == 0 { 0 } else { PACK * (g - 1) + 1 };
            let len: usize = if g == 0 {
                1
            } else if 2 * n - start < PACK {
                2 * n - start
            } else {
                PACK
            };
            WitnessValue::Packed { start, len }
        } else if idx < 3 * n + a_ {
            WitnessValue::Int(self.e_0[idx - 2 * n - a_])
        } else if idx < 4 * n + a_ {
            WitnessValue::Int(self.delta_0[idx - 3 * n - a_])
        } else if idx < 9 * n + a_ {
            let q = idx - 4 * n - a_;
            let i = q / 5;
            let k = q % 5;
            proof {
                assert(i < n) by (nonlinear_arith)
                    requires
                        q < 5 * n,
                        i == q / 5,
                ;
            }
            let e = self.e_0[i];
            WitnessValue::Int(if e & (1i128 << (k as i128)) == 0 { 0 } else { 1 })
        } else {
            let q = idx - 9 * n - a_;
            let i = q / 13;
            let k = q % 13;
            proof {
                assert(i < n) by (nonlinear_arith)
                    requires
                        q < 13 * n,
                        i == q / 13,
                ;
            }
            let d = self.delta_0[i] + 4096;
            WitnessValue::Int(if d & (1i128 << (k as i128)) == 0 { 0 } else { 1 })
        }
    }
}

/// The value of bit witness `t` (`t < 2n`): the integer that
/// `offline_witness` gives it.
pub open spec fn witness_int(c: CircuitOffline, t: int) -> int {
    match offline_witness(c, t) {
        WitnessValue::Int(v) => v as int,
        WitnessValue::Packed { .. } => 0,
    }
}

/// `sum_{k < len} 2^k * w[start + k]` over the bit witnesses.
pub open spec fn packed_value(c: CircuitOffline, start: int, len: int) -> int
    decreases len,
{
    if len <= 0 {
        0
    } else {
        packed_value(c, start, len - 1) + zk::two_pow((len - 1) as nat) * witness_int(c, start + len - 1)
    }
}

/// The number witness `idx` holds: an integer, or a pack's weighted sum.
pub open spec fn offline_value(c: CircuitOffline, idx: int) -> int {
    match offline_witness(c, idx) {
        WitnessValue::Int(v) => v as int,
        WitnessValue::Packed { start, len } => packed_value(c, start as int, len as int),
    }
}

/// The honest assignment of the offline circuit: the witnesses as
/// `offline_witness` says, the packs summed.
pub open spec fn offline_witness_values(c: CircuitOffline) -> Seq<int> {
    let n = c.num_dimension as int;
    Seq::new((num_packs(n) + 22 * n) as nat, |idx: int| offline_value(c, idx))
}

/// The public inputs of the offline circuit: the ciphertext polynomial.
pub open spec fn offline_inputs(c: CircuitOffline) -> Seq<int> {
    c.c_0@.map_values(|x: i128| x as int)
}

/// The first `k` terms of `(pk * r)[i]` over `Z[X]/(X^n + 1)`.
pub open spec fn offline_row(pk: Seq<i128>, r: Seq<i128>, n: int, i: int, k: int) -> int
    decreases k,
{
    if k <= 0 {
        0
    } else {
        let j = k - 1;
        let coeff = if j <= i { pk[i - j] as int } else { -(pk[i - j + n] as int) };
        offline_row(pk, r, n, i, k - 1) + coeff * (r[j] as int)
    }
}

/// Secrets for which the offline statement is true: every randomness
/// coefficient a bit, every noise in `[0, 32)`, every quotient in
/// `[-4096, 4096)`, and `(pk * r)[i] + e[i] = c[i] + q * delta[i]` for every
/// coefficient.
pub open spec fn honest_offline(c: CircuitOffline) -> bool {
    let n = c.num_dimension as int;
    forall|i: int|
        0 <= i < n ==> {
            &&& 0 <= #[trigger] c.r@[i] <= 1
            &&& 0 <= c.e_0@[i] < 32
            &&& -4096 <= c.delta_0@[i] < 4096
            &&& offline_row(c.pk_0@, c.r@, n, i, n) + c.e_0@[i] == c.c_0@[i] + (MODULUS as int) * (c.delta_0@[i] as int)
        }
}

proof fn lemma_pack_bounds(n: int, g: int)
    requires
        0 < n <= NUM_DIMENSION,
        0 <= g < num_packs(n),
    ensures
        0 <= pack_start(g),
        0 < pack_len(n, g) <= PACK,
        pack_start(g) + pack_len(n, g) <= 2 * n,
{
    if g > 0 {
        let rest = 2 * n - 1;
        vstd::arithmetic::div_mod::lemma_fundamental_div_mod(rest, PACK as int);
        if rest % (PACK as int) > 0 {
            assert(g - 1 <= rest / (PACK as int));
        } else {
            assert(g - 1 < rest / (PACK as int));
        }
        assert((PACK as int) * (g - 1) <= rest) by (nonlinear_arith)
            requires
                g - 1 <= rest / (PACK as int),
                rest == (PACK as int) * (rest / (PACK as int)) + rest % (PACK as int),
                rest % (PACK as int) >= 0,
        ;
        if rest % (PACK as int) == 0 {
            assert((PACK as int) * (g - 1) < rest) by (nonlinear_arith)
                requires
                    g - 1 < rest / (PACK as int),
                    rest == (PACK as int) * (rest / (PACK as int)),
            ;
        } else {
            assert((PACK as int) * (g - 1) < rest) by (nonlinear_arith)
                requires
                    g - 1 <= rest / (PACK as int),
                    rest == (PACK as int) * (rest / (PACK as int)) + rest % (PACK as int),
                    rest % (PACK as int) > 0,
            ;
        }
    }
}

proof fn lemma_lc_weighted_bits(c: CircuitOffline, inputs: Seq<int>, start: int, len: int)
    requires
        c.wf(),
        0 <= start,
        0 <= len <= PACK,
        start + len <= 2 * c.num_dimension,
    ensures
        zk::lc_value(weighted_bits(start, len), inputs, offline_witness_values(c)) == packed_value(c, start, len),
    decreases len,
{
    let wits = offline_witness_values(c);
    if len > 0 {
        lemma_lc_weighted_bits(c, inputs, start, len - 1);
        let ts = weighted_bits(start, len);
        assert(ts.drop_last() =~= weighted_bits(start, len - 1));
        let t = ts.last();
        assert(t == Term { coeff: 1, neg: false, shift: (len - 1) as u32, var: Var::Witness((start + len - 1) as usize) });
        assert((len - 1) as u32 as nat == (len - 1) as nat);
        if len - 1 == 0 {
            assert(zk::coeff_value(t) == 1);
            assert(zk::two_pow(0) == 1);
        } else {
            assert(zk::coeff_value(t) == zk::two_pow((len - 1) as nat));
        }
        assert(zk::var_value(t.var, inputs, wits) == wits[start + len - 1]);
        assert(wits[start + len - 1] == offline_value(c, start + len - 1));
        assert(offline_value(c, start + len - 1) == witness_int(c, start + len - 1));
    } else {
        assert(weighted_bits(start, 0) =~= Seq::<Term>::empty());
    }
}

/// The pack constraints hold under the honest assignment.
proof fn lemma_pack_holds(c: CircuitOffline, g: int)
    requires
        c.wf(),
        0 <= g < num_packs(c.num_dimension as int),
    ensures
        zk::holds(pack_constraint(c.num_dimension as int, g), offline_inputs(c), offline_witness_values(c)),
{
    let n = c.num_dimension as int;
    let inputs = offline_inputs(c);
    let wits = offline_witness_values(c);
    lemma_pack_bounds(n, g);
    let k = pack_constraint(n, g);
    lemma_lc_weighted_bits(c, inputs, pack_start(g), pack_len(n, g));
    zk::lemma_lc_push(Seq::<Term>::empty(), unit(Var::One), inputs, wits);
    assert(seq![unit(Var::One)] =~= Seq::<Term>::empty().push(unit(Var::One)));
    let w = unit(Var::Witness((2 * n + g) as usize));
    zk::lemma_lc_push(Seq::<Term>::empty(), w, inputs, wits);
    assert(seq![w] =~= Seq::<Term>::empty().push(w));
    assert(zk::lc_value(Seq::<Term>::empty(), inputs, wits) == 0);
    assert(wits[2 * n + g] == offline_value(c, 2 * n + g));
    assert(offline_value(c, 2 * n + g) == packed_value(c, pack_start(g), pack_len(n, g)));
    assert(zk::lc_value(k.1, inputs, wits) == 1);
    assert(zk::lc_value(k.2, inputs, wits) == packed_value(c, pack_start(g), pack_len(n, g)));
}

proof fn lemma_bit_witnesses(c: CircuitOffline, k: int)
    requires
        c.wf(),
        0 <= k < c.num_dimension,
        0 <= c.r@[k] <= 1,
    ensures
        offline_witness_values(c)[2 * k] == c.r@[k] as int,
        offline_witness_values(c)[2 * k + 1] == 0,
{
    let x = c.r@[k];
    assert(x & 1 == x && x & 2 == 0) by (bit_vector)
        requires
            0 <= x <= 1,
    ;
    assert((2 * k) / 2 == k && (2 * k) % 2 == 0);
    assert((2 * k + 1) / 2 == k && (2 * k + 1) % 2 == 1);
}

proof fn lemma_lc_bit_key_terms(c: CircuitOffline, inputs: Seq<int>, i: int, k: int)
    requires
        c.wf(),
        honest_offline(c),
        0 <= i < c.num_dimension,
        0 <= k <= c.num_dimension,
    ensures
        zk::lc_value(
            bit_key_terms(c.pk_0@, c.num_dimension as int, i).subrange(0, 2 * k),
            inputs,
            offline_witness_values(c),
        ) == offline_row(c.pk_0@, c.r@, c.num_dimension as int, i, k),
    decreases k,
{
    let n = c.num_dimension as int;
    let wits = offline_witness_values(c);
    let ts = bit_key_terms(c.pk_0@, n, i);
    if k == 0 {
        assert(ts.subrange(0, 0) =~= Seq::<Term>::empty());
    } else {
        lemma_lc_bit_key_terms(c, inputs, i, k - 1);
        let j = k - 1;
        assert(0 <= c.r@[j] <= 1);
        lemma_bit_witnesses(c, j);
        let te = ts[2 * j];
        let to = ts[2 * j + 1];
        assert(ts.subrange(0, 2 * k).drop_last() =~= ts.subrange(0, 2 * j + 1));
        assert(ts.subrange(0, 2 * j + 1).drop_last() =~= ts.subrange(0, 2 * j));
        assert(ts.subrange(0, 2 * k).last() == to);
        assert(ts.subrange(0, 2 * j + 1).last() == te);
        assert((2 * j) / 2 == j && (2 * j) % 2 == 0);
        assert((2 * j + 1) / 2 == j && (2 * j + 1) % 2 == 1);
        let pj = if j <= i { i - j } else { i - j + n };
        assert(te == Term { coeff: c.pk_0@[pj], neg: j > i, shift: 0, var: Var::Witness((2 * j) as usize) });
        assert(to.var == Var::Witness((2 * j + 1) as usize));
        assert(zk::var_value(to.var, inputs, wits) == 0);
        assert(zk::coeff_value(to) * zk::var_value(to.var, inputs, wits) == 0) by (nonlinear_arith)
            requires
                zk::var_value(to.var, inputs, wits) == 0,
        ;
        let coeff = if j <= i { c.pk_0@[i - j] as int } else { -(c.pk_0@[i - j + n] as int) };
        assert(zk::coeff_value(te) == coeff);
        assert(zk::var_value(te.var, inputs, wits) == c.r@[j] as int);
        assert(ts.subrange(0, 2 * k) =~= ts.subrange(0, 2 * j + 1).push(to));
        assert(ts.subrange(0, 2 * j + 1) =~= ts.subrange(0, 2 * j).push(te));
        zk::lemma_lc_push(ts.subrange(0, 2 * j + 1), to, inputs, wits);
        zk::lemma_lc_push(ts.subrange(0, 2 * j), te, inputs, wits);
        assert(zk::coeff_value(te) * zk::var_value(te.var, inputs, wits) == coeff * (c.r@[j] as int));
    }
}

/// The encryption constraints hold under the honest assignment.
proof fn lemma_offline_encryption_holds(c: CircuitOffline, i: int)
    requires
        c.wf(),
        honest_offline(c),
        0 <= i < c.num_dimension,
    ensures
        zk::holds(
            offline_encryption_constraint(c.pk_0@, c.num_dimension as int, i),
            offline_inputs(c),
            offline_witness_values(c),
        ),
{
    let n = c.num_dimension as int;
    let a_ = num_packs(n);
    let inputs = offline_inputs(c);
    let wits = offline_witness_values(c);
    let k = offline_encryption_constraint(c.pk_0@, n, i);
    let ts = bit_key_terms(c.pk_0@, n, i);
    lemma_lc_bit_key_terms(c, inputs, i, n);
    assert(ts.subrange(0, 2 * n) =~= ts);
    let we = unit(Var::Witness((2 * n + a_ + i) as usize));
    zk::lemma_lc_push(ts, we, inputs, wits);
    assert(wits[2 * n + a_ + i] == c.e_0@[i] as int);
    assert(zk::lc_value(k.0, inputs, wits) == offline_row(c.pk_0@, c.r@, n, i, n) + c.e_0@[i]);
    zk::lemma_lc_push(Seq::<Term>::empty(), unit(Var::One), inputs, wits);
    assert(seq![unit(Var::One)] =~= Seq::<Term>::empty().push(unit(Var::One)));
    assert(zk::lc_value(Seq::<Term>::empty(), inputs, wits) == 0);
    assert(zk::lc_value(k.1, inputs, wits) == 1);
    let wi = unit(Var::Input(i as usize));
    let wd = Term { coeff: MODULUS, neg: false, shift: 0, var: Var::Witness((3 * n + a_ + i) as usize) };
    zk::lemma_lc_push(Seq::<Term>::empty(), wi, inputs, wits);
    assert(seq![wi] =~= Seq::<Term>::empty().push(wi));
    zk::lemma_lc_push(seq![wi], wd, inputs, wits);
    assert(seq![wi, wd] =~= seq![wi].push(wd));
    assert(inputs[i] == c.c_0@[i] as int);
    assert(wits[3 * n + a_ + i] == c.delta_0@[i] as int);
    assert(zk::lc_value(k.2, inputs, wits) == c.c_0@[i] + (MODULUS as int) * (c.delta_0@[i] as int));
    assert(0 <= c.r@[i] <= 1);
    assert(offline_row(c.pk_0@, c.r@, n, i, n) + c.e_0@[i] == c.c_0@[i] + (MODULUS as int) * (c.delta_0@[i] as int));
    let x0 = zk::lc_value(k.0, inputs, wits);
    let x1 = zk::lc_value(k.1, inputs, wits);
    assert(x0 * x1 == x0) by (nonlinear_arith)
        requires
            x1 == 1,
    ;
    assert(zk::lc_value(k.0, inputs, wits) * zk::lc_value(k.1, inputs, wits) - zk::lc_value(k.2, inputs, wits) == 0);
    vstd::arithmetic::div_mod::lemma_small_mod(0, zk::scalar_field() as nat);
}

/// Bit `k` of `v`, as the bit witnesses take it.
pub open spec fn bit_of(v: i128, k: int) -> int {
    if v & (1i128 << (k as i128)) == 0 { 0 } else { 1 }
}

/// `sum_{k < m} 2^k * bit_of(v, k)`.
pub open spec fn bits_sum(v: i128, m: int) -> int
    decreases m,
{
    if m <= 0 { 0 } else { bits_sum(v, m - 1) + zk::two_pow((m - 1) as nat) * bit_of(v, m - 1) }
}

/// `sum_{k < m} 2^k * w[base + k]`.
pub open spec fn weighted_sum(w: Seq<int>, base: int, m: int) -> int
    decreases m,
{
    if m <= 0 { 0 } else { weighted_sum(w, base, m - 1) + zk::two_pow((m - 1) as nat) * w[base + m - 1] }
}

proof fn lemma_bits_sum_5(v: i128)
    requires
        0 <= v < 32,
    ensures
        bits_sum(v, 5) == v,
{
    reveal_with_fuel(bits_sum, 6);
    reveal_with_fuel(zk::two_pow, 6);
    assert(v == (if v & (1i128 << 0i128) == 0 { 0i128 } else { 1i128 }) + 2 * (if v & (1i128 << 1i128) == 0 {
        0i128
    } else {
        1i128
    }) + 4 * (if v & (1i128 << 2i128) == 0 { 0i128 } else { 1i128 }) + 8 * (if v & (1i128 << 3i128) == 0 {
        0i128
    } else {
        1i128
    }) + 16 * (if v & (1i128 << 4i128) == 0 { 0i128 } else { 1i128 })) by (bit_vector)
        requires
            0 <= v < 32,
    ;
}

proof fn lemma_bits_sum_8(v: i128)
    requires
        0 <= v < 256,
    ensures
        bits_sum(v, 8) == v,
{
    reveal_with_fuel(bits_sum, 9);
    reveal_with_fuel(zk::two_pow, 9);
    assert(v == (if v & (1i128 << 0i128) == 0 { 0i128 } else { 1i128 }) + 2 * (if v & (1i128 << 1i128) == 0 {
        0i128
    } else {
        1i128
    }) + 4 * (if v & (1i128 << 2i128) == 0 { 0i128 } else { 1i128 }) + 8 * (if v & (1i128 << 3i128) == 0 {
        0i128
    } else {
        1i128
    }) + 16 * (if v & (1i128 << 4i128) == 0 { 0i128 } else { 1i128 }) + 32 * (if v & (1i128 << 5i128) == 0 {
        0i128
    } else {
        1i128
    }) + 64 * (if v & (1i128 << 6i128) == 0 { 0i128 } else { 1i128 }) + 128 * (if v & (1i128 << 7i128) == 0 {
        0i128
    } else {
        1i128
    })) by (bit_vector)
        requires
            0 <= v < 256,
    ;
}

proof fn lemma_bits_sum_13(v: i128)
    requires
        0 <= v < 8192,
    ensures
        bits_sum(v, 13) == v,
{
    reveal_with_fuel(bits_sum, 14);
    reveal_with_fuel(zk::two_pow, 14);
    assert(v == (if v & (1i128 << 0i128) == 0 { 0i128 } else { 1i128 }) + 2 * (if v & (1i128 << 1i128) == 0 {
        0i128
    } else {
        1i128
    }) + 4 * (if v & (1i128 << 2i128) == 0 { 0i128 } else { 1i128 }) + 8 * (if v & (1i128 << 3i128) == 0 {
        0i128
    } else {
        1i128
    }) + 16 * (if v & (1i128 << 4i128) == 0 { 0i128 } else { 1i128 }) + 32 * (if v & (1i128 << 5i128) == 0 {
        0i128
    } else {
        1i128
    }) + 64 * (if v & (1i128 << 6i128) == 0 { 0i128 } else { 1i128 }) + 128 * (if v & (1i128 << 7i128) == 0 {
        0i128
    } else {
        1i128
    }) + 256 * (if v & (1i128 << 8i128) == 0 { 0i128 } else { 1i128 }) + 512 * (if v & (1i128 << 9i128) == 0 {
        0i128
    } else {
        1i128
    }) + 1024 * (if v & (1i128 << 10i128) == 0 { 0i128 } else { 1i128 }) + 2048 * (if v & (1i128 << 11i128)
        == 0 {
        0i128
    } else {
        1i128
    }) + 4096 * (if v & (1i128 << 12i128) == 0 { 0i128 } else { 1i128 })) by (bit_vector)
        requires
            0 <= v < 8192,
    ;
}

proof fn lemma_weighted_sum_bits(w: Seq<int>, base: int, v: i128, m: int)
    requires
        forall|k: int| 0 <= k < m ==> #[trigger] w[base + k] == bit_of(v, k),
    ensures
        weighted_sum(w, base, m) == bits_sum(v, m),
    decreases m,
{
    if m > 0 {
        lemma_weighted_sum_bits(w, base, v, m - 1);
        assert(w[base + (m - 1)] == bit_of(v, m - 1));
    }
}

pub(crate) proof fn lemma_lc_decompose(base: int, bits: int, target: Var, offset: int, inputs: Seq<int>, wits: Seq<int>, m: int)
    requires
        0 <= m <= bits <= 13,
        0 <= base,
        base + bits <= usize::MAX,
    ensures
        zk::lc_value(zk::decompose_constraint(base, bits, target, offset).0.subrange(0, m), inputs, wits)
            == weighted_sum(wits, base, m),
    decreases m,
{
    let a = zk::decompose_constraint(base, bits, target, offset).0;
    if m == 0 {
        assert(a.subrange(0, 0) =~= Seq::<Term>::empty());
    } else {
        lemma_lc_decompose(base, bits, target, offset, inputs, wits, m - 1);
        let t = a[m - 1];
        assert(a.subrange(0, m) =~= a.subrange(0, m - 1).push(t));
        zk::lemma_lc_push(a.subrange(0, m - 1), t, inputs, wits);
        zk::lemma_two_pow_le((m - 1) as nat, 13);
        reveal_with_fuel(zk::two_pow, 14);
        assert(zk::two_pow(13) == 8192);
        assert(zk::coeff_value(t) == zk::two_pow((m - 1) as nat));
        assert(t.var == Var::Witness((base + m - 1) as usize));
        assert(zk::var_value(t.var, inputs, wits) == wits[base + m - 1]);
        assert(zk::coeff_value(t) * zk::var_value(t.var, inputs, wits) == zk::two_pow((m - 1) as nat) * wits[base
            + m - 1]);
    }
}

/// The bit constraint on a bit witness holds.
pub(crate) proof fn lemma_bit_holds(wits: Seq<int>, inputs: Seq<int>, x: int)
    requires
        wits[x] == 0 || wits[x] == 1,
        0 <= x <= usize::MAX,
    ensures
        zk::holds(zk::bit_constraint(Var::Witness(x as usize)), inputs, wits),
{
    let v = Var::Witness(x as usize);
    let k = zk::bit_constraint(v);
    zk::lemma_lc_push(Seq::<Term>::empty(), unit(v), inputs, wits);
    assert(seq![unit(v)] =~= Seq::<Term>::empty().push(unit(v)));
    let m1 = Term { coeff: 1, neg: true, shift: 0, var: Var::One };
    zk::lemma_lc_push(seq![unit(v)], m1, inputs, wits);
    assert(seq![unit(v), m1] =~= seq![unit(v)].push(m1));
    assert(zk::lc_value(Seq::<Term>::empty(), inputs, wits) == 0);
    let w = wits[x];
    assert(zk::lc_value(k.0, inputs, wits) == w);
    assert(zk::lc_value(k.1, inputs, wits) == w - 1);
    assert(w * (w - 1) == 0) by (nonlinear_arith)
        requires
            w == 0 || w == 1,
    ;
    vstd::arithmetic::div_mod::lemma_small_mod(0, zk::scalar_field() as nat);
}

/// A decomposition holds where the bits are those of `target + offset`, a
/// value of `bits` bits.
pub(crate) proof fn lemma_decompose_holds(inputs: Seq<int>, wits: Seq<int>, base: int, bits: int, t: int, offset: int, v: i128)
    requires
        bits == 5 || bits == 8 || bits == 13,
        offset == 0 || offset == 4096,
        0 <= t <= usize::MAX,
        0 <= base,
        base + bits <= usize::MAX,
        forall|k: int| 0 <= k < bits ==> #[trigger] wits[base + k] == bit_of(v, k),
        v as int == wits[t] + offset,
        bits == 5 ==> 0 <= v < 32,
        bits == 8 ==> 0 <= v < 256,
        bits == 13 ==> 0 <= v < 8192,
    ensures
        zk::holds(zk::decompose_constraint(base, bits, Var::Witness(t as usize), offset), inputs, wits),
{
    let target = Var::Witness(t as usize);
    let k = zk::decompose_constraint(base, bits, target, offset);
    lemma_lc_decompose(base, bits, target, offset, inputs, wits, bits);
    assert(k.0.subrange(0, bits) =~= k.0);
    lemma_weighted_sum_bits(wits, base, v, bits);
    if bits == 5 {
        lemma_bits_sum_5(v);
    } else if bits == 8 {
        lemma_bits_sum_8(v);
    } else {
        lemma_bits_sum_13(v);
    }
    assert(zk::lc_value(k.0, inputs, wits) == v as int);
    zk::lemma_lc_push(Seq::<Term>::empty(), unit(Var::One), inputs, wits);
    assert(seq![unit(Var::One)] =~= Seq::<Term>::empty().push(unit(Var::One)));
    assert(zk::lc_value(Seq::<Term>::empty(), inputs, wits) == 0);
    assert(zk::lc_value(k.1, inputs, wits) == 1);
    zk::lemma_lc_push(Seq::<Term>::empty(), unit(target), inputs, wits);
    assert(seq![unit(target)] =~= Seq::<Term>::empty().push(unit(target)));
    if offset == 0 {
        assert(k.2 == seq![unit(target)]);
        assert(zk::lc_value(k.2, inputs, wits) == wits[t]);
    } else {
        let o = Term { coeff: offset as i128, neg: false, shift: 0, var: Var::One };
        zk::lemma_lc_push(seq![unit(target)], o, inputs, wits);
        assert(seq![unit(target), o] =~= seq![unit(target)].push(o));
        assert(k.2 == seq![unit(target), o]);
        assert(zk::coeff_value(o) == 4096);
        assert(zk::var_value(o.var, inputs, wits) == 1);
        let co = zk::coeff_value(o);
        let vo = zk::var_value(o.var, inputs, wits);
        assert(co * vo == 4096) by (nonlinear_arith)
            requires
                co == 4096,
                vo == 1,
        ;
        assert(zk::lc_value(seq![unit(target)], inputs, wits) == wits[t]);
        assert(zk::lc_value(k.2, inputs, wits) == wits[t] + offset);
    }
    let x0 = zk::lc_value(k.0, inputs, wits);
    let x1 = zk::lc_value(k.1, inputs, wits);
    assert(x0 * x1 == x0) by (nonlinear_arith)
        requires
            x1 == 1,
    ;
    vstd::arithmetic::div_mod::lemma_small_mod(0, zk::scalar_field() as nat);
}

/// The range constraints of the noise hold under the honest assignment.
proof fn lemma_noise_range_holds(c: CircuitOffline, q: int)
    requires
        c.wf(),
        honest_offline(c),
        0 <= q < 6 * c.num_dimension,
    ensures
        ({
            let n = c.num_dimension as int;
            let a_ = num_packs(n);
            zk::holds(zk::range_constraint(n, q, 5, 4 * n + a_, 2 * n + a_, 0), offline_inputs(c), offline_witness_values(c))
        }),
{
    let n = c.num_dimension as int;
    let a_ = num_packs(n);
    lemma_num_packs_bound(n);
    let inputs = offline_inputs(c);
    let wits = offline_witness_values(c);
    let i = q / 6;
    let r = q % 6;
    vstd::arithmetic::div_mod::lemma_fundamental_div_mod(q, 6);
    assert(0 <= i < n);
    if r < 5 {
        let x = 4 * n + a_ + 5 * i + r;
        vstd::arithmetic::div_mod::lemma_fundamental_div_mod_converse(5 * i + r, 5, i, r);
        assert(wits[x] == offline_value(c, x));
        assert(wits[x] == 0 || wits[x] == 1);
        lemma_bit_holds(wits, inputs, x);
    } else {
        let base = 4 * n + a_ + 5 * i;
        let v = c.e_0@[i];
        assert(0 <= c.r@[i] <= 1);
        assert forall|k: int| 0 <= k < 5 implies #[trigger] wits[base + k] == bit_of(v, k) by {
            vstd::arithmetic::div_mod::lemma_fundamental_div_mod_converse(5 * i + k, 5, i, k);
            assert(wits[base + k] == offline_value(c, base + k));
        }
        assert(wits[2 * n + a_ + i] == offline_value(c, 2 * n + a_ + i));
        lemma_decompose_holds(inputs, wits, base, 5, 2 * n + a_ + i, 0, v);
    }
}

/// The range constraints of the quotient hold under the honest assignment.
proof fn lemma_quotient_range_holds(c: CircuitOffline, q: int)
    requires
        c.wf(),
        honest_offline(c),
        0 <= q < 14 * c.num_dimension,
    ensures
        ({
            let n = c.num_dimension as int;
            let a_ = num_packs(n);
            zk::holds(
                zk::range_constraint(n, q, 13, 9 * n + a_, 3 * n + a_, 4096),
                offline_inputs(c),
                offline_witness_values(c),
            )
        }),
{
    let n = c.num_dimension as int;
    let a_ = num_packs(n);
    lemma_num_packs_bound(n);
    let inputs = offline_inputs(c);
    let wits = offline_witness_values(c);
    let i = q / 14;
    let r = q % 14;
    vstd::arithmetic::div_mod::lemma_fundamental_div_mod(q, 14);
    assert(0 <= i < n);
    if r < 13 {
        let x = 9 * n + a_ + 13 * i + r;
        vstd::arithmetic::div_mod::lemma_fundamental_div_mod_converse(13 * i + r, 13, i, r);
        assert(wits[x] == offline_value(c, x));
        assert(wits[x] == 0 || wits[x] == 1);
        lemma_bit_holds(wits, inputs, x);
    } else {
        let base = 9 * n + a_ + 13 * i;
        assert(0 <= c.r@[i] <= 1);
        let v = (c.delta_0@[i] + 4096) as i128;
        assert forall|k: int| 0 <= k < 13 implies #[trigger] wits[base + k] == bit_of(v, k) by {
            vstd::arithmetic::div_mod::lemma_fundamental_div_mod_converse(13 * i + k, 13, i, k);
            assert(wits[base + k] == offline_value(c, base + k));
        }
        assert(wits[3 * n + a_ + i] == offline_value(c, 3 * n + a_ + i));
        lemma_decompose_holds(inputs, wits, base, 13, 3 * n + a_ + i, 4096, v);
    }
}

proof fn lemma_num_packs_bound(n: int)
    requires
        0 < n <= NUM_DIMENSION,
    ensures
        1 <= num_packs(n) <= 2 * n + 1,
{
    let rest = 2 * n - 1;
    vstd::arithmetic::div_mod::lemma_fundamental_div_mod(rest, PACK as int);
}

/// An honest prover satisfies the offline circuit: where every randomness
/// coefficient is a bit, every noise lies in `[0, 32)`, every quotient in
/// `[-4096, 4096)`, and `(pk * r)[i] + e[i] = c[i] + q * delta[i]` for every
/// coefficient, every constraint of the circuit (the packs of the
/// randomness bits, the encryption constraints and both ranges) holds under
/// the assignment `offline_witness` describes, the ciphertext as the public
/// inputs. The Poseidon hash over the packs is not among these constraints.
pub proof fn lemma_honest_offline_holds(c: CircuitOffline, idx: int)
    requires
        c.wf(),
        honest_offline(c),
        0 <= idx < num_packs(c.num_dimension as int) + 21 * c.num_dimension,
    ensures
        zk::holds(
            offline_constraint(c.pk_0@, c.num_dimension as int, idx),
            offline_inputs(c),
            offline_witness_values(c),
        ),
{
    let n = c.num_dimension as int;
    let a_ = num_packs(n);
    if idx < a_ {
        lemma_pack_holds(c, idx);
    } else if idx < a_ + n {
        lemma_offline_encryption_holds(c, idx - a_);
    } else if idx < a_ + 7 * n {
        lemma_noise_range_holds(c, idx - a_ - n);
    } else {
        lemma_quotient_range_holds(c, idx - a_ - 7 * n);
    }
}

/// A range group holds where, for each of the `n` values `vals[i]` (each
/// below `2^bits`), the bit witnesses hold its bits and the target witness
/// plus `offset` is the value.
pub(crate) proof fn lemma_range_group_holds(
    inputs: Seq<int>,
    wits: Seq<int>,
    n: int,
    q: int,
    bits: int,
    bit_base: int,
    target_base: int,
    offset: int,
    vals: Seq<i128>,
)
    requires
        bits == 5 || bits == 8 || bits == 13,
        offset == 0 || offset == 4096,
        0 < n <= NUM_DIMENSION,
        0 <= q < (bits + 1) * n,
        0 <= bit_base,
        0 <= target_base,
        bit_base + bits * n <= usize::MAX,
        target_base + n <= usize::MAX,
        vals.len() >= n,
        forall|i: int, k: int|
            0 <= i < n && 0 <= k < bits ==> #[trigger] bit_of(vals[i], k) == wits[bit_base + bits * i + k],
        forall|i: int| 0 <= i < n ==> wits[target_base + i] + offset == #[trigger] vals[i],
        forall|i: int|
            0 <= i < n ==> 0 <= #[trigger] vals[i] && (bits == 5 ==> vals[i] < 32) && (bits == 8 ==> vals[i] < 256)
                && (bits == 13 ==> vals[i] < 8192),
    ensures
        zk::holds(zk::range_constraint(n, q, bits, bit_base, target_base, offset), inputs, wits),
{
    let i = q / (bits + 1);
    let r = q % (bits + 1);
    vstd::arithmetic::div_mod::lemma_fundamental_div_mod(q, bits + 1);
    assert(0 <= i < n) by (nonlinear_arith)
        requires
            q == (bits + 1) * i + r,
            0 <= r < bits + 1,
            0 <= q < (bits + 1) * n,
            bits > 0,
    ;
    assert(bits * i + bits <= bits * n) by (nonlinear_arith)
        requires
            i < n,
            bits > 0,
    ;
    assert(0 <= bits * i) by (nonlinear_arith)
        requires
            i >= 0,
            bits > 0,
    ;
    let v = vals[i];
    if r < bits {
        let x = bit_base + bits * i + r;
        assert(bit_of(v, r) == wits[x]);
        lemma_bit_holds(wits, inputs, x);
    } else {
        let base = bit_base + bits * i;
        assert forall|k: int| 0 <= k < bits implies #[trigger] wits[base + k] == bit_of(v, k) by {
            assert(bit_of(vals[i], k) == wits[bit_base + bits * i + k]);
        }
        assert(wits[target_base + i] + offset == vals[i]);
        lemma_decompose_holds(inputs, wits, base, bits, target_base + i, offset, v);
    }
}

/// Where a line of a secrets file goes: to the first of `r`, `c_0`,
/// `pk_0`, `e_0` and `delta_0`, in that order, that it contains, which
/// `CircuitOffline::new` reads into the vector of that name (index 0 to 4);
/// a line containing none of them is skipped (index 5).
pub proof fn lemma_offline_line_routing(line: Seq<u8>)
    ensures
        keyfile::first_tag(line, offline_tag_seq()) == (if keyfile::contains(line, seq![114u8]) {
            0int
        } else if keyfile::contains(line, seq![99u8, 95u8, 48u8]) {
            1int
        } else if keyfile::contains(line, seq![112u8, 107u8, 95u8, 48u8]) {
            2int
        } else if keyfile::contains(line, seq![101u8, 95u8, 48u8]) {
            3int
        } else if keyfile::contains(line, seq![100u8, 101u8, 108u8, 116u8, 97u8, 95u8, 48u8]) {
            4int
        } else {
            5int
        }),
{
    let t = offline_tag_seq();
    reveal_with_fuel(keyfile::first_tag, 6);
    assert(t.drop_first() =~= seq![seq![99u8, 95u8, 48u8], seq![112u8, 107u8, 95u8, 48u8], seq![101u8, 95u8, 48u8], seq![
        100u8,
        101u8,
        108u8,
        116u8,
        97u8,
        95u8,
        48u8,
    ]]);
    assert(t.drop_first().drop_first() =~= seq![seq![112u8, 107u8, 95u8, 48u8], seq![101u8, 95u8, 48u8], seq![
        100u8,
        101u8,
        108u8,
        116u8,
        97u8,
        95u8,
        48u8,
    ]]);
    assert(t.drop_first().drop_first().drop_first() =~= seq![seq![101u8, 95u8, 48u8], seq![
        100u8,
        101u8,
        108u8,
        116u8,
        97u8,
        95u8,
        48u8,
    ]]);
    assert(t.drop_first().drop_first().drop_first().drop_first() =~= seq![seq![
        100u8,
        101u8,
        108u8,
        116u8,
        97u8,
        95u8,
        48u8,
    ]]);
    assert(t.drop_first().drop_first().drop_first().drop_first().drop_first() =~= Seq::<Seq<u8>>::empty());
}

} // verus!
