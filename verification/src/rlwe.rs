//! Ring-LWE public-key encryption over `Z[X]/(X^N + 1)`, written as a
//! product of a negacyclic matrix with the random ternary vector.
pub mod context;
pub mod lagrange;
use vstd::prelude::*;
use rand::Rng;
use rand::SeedableRng;

verus! {

/// Dimension of the ring: polynomials of degree below 4096.
pub const NUM_DIMENSION: usize = 4096;

/// Ciphertext modulus: the product of the three 36/37-bit NTT primes.
pub const MODULUS: i128 = 649033470896967801447398927572993i128;

/// Every public-key coefficient that `encrypt` accepts lies strictly inside
/// `(-PK_BOUND, PK_BOUND)`; with ternary randomness this keeps each row sum
/// inside `i128`.
pub const PK_BOUND: i128 = 0x2_0000_0000_0000_0000_0000_0000_0000i128;

/// Bound on the absolute value of each noise coefficient that `encrypt` accepts.
pub const NOISE_BOUND: i128 = 0x10_0000i128;

/// The coefficient at row `i`, column `j` of the negacyclic matrix of `p`:
/// `(-1)^q * p[r]` where `i - j = q * len(p) + r` with `0 <= r < len(p)`.
pub open spec fn negacyclic_entry(p: Seq<i128>, i: int, j: int) -> int {
    let l = p.len() as int;
    let q = (i - j) / l;
    let r = (i - j) % l;
    if q % 2 == 0 {
        p[r] as int
    } else {
        -(p[r] as int)
    }
}

/// `mat` holds `NUM_DIMENSION` rows of length `p.len()`, row-major, and the
/// entry at `(i, j)` is `negacyclic_entry(p, i, j)`.
pub open spec fn is_negacyclic_matrix(mat: Seq<i128>, p: Seq<i128>) -> bool {
    &&& mat.len() == NUM_DIMENSION * p.len()
    &&& forall|i: int, j: int|
        0 <= i < NUM_DIMENSION && 0 <= j < p.len() ==> mat[i * p.len() + j] as int
            == #[trigger] negacyclic_entry(p, i, j)
}

/// Sum over `j < n` of `v[j] * mat[i * NUM_DIMENSION + j]`.
pub open spec fn row_dot(mat: Seq<i128>, v: Seq<i128>, i: int, n: int) -> int
    decreases n,
{
    if n <= 0 {
        0
    } else {
        row_dot(mat, v, i, n - 1) + (v[n - 1] as int) * (mat[i * NUM_DIMENSION + (n - 1)] as int)
    }
}

/// Every partial row sum and every product that `matrix_mut` forms fits in `i128`.
pub open spec fn matrix_mut_fits(mat: Seq<i128>, v: Seq<i128>) -> bool {
    &&& forall|i: int, n: int|
        0 <= i < NUM_DIMENSION && 0 <= n <= NUM_DIMENSION ==> i128::MIN <= #[trigger] row_dot(
            mat,
            v,
            i,
            n,
        ) <= i128::MAX
    &&& forall|i: int, j: int|
        0 <= i < NUM_DIMENSION && 0 <= j < NUM_DIMENSION ==> i128::MIN <= (v[j] as int) * (
        #[trigger] mat[i * NUM_DIMENSION + j] as int) <= i128::MAX
}

/// A public key: the negacyclic matrices of the two key polynomials.
pub struct PublicKey {
    pub pk_0: Vec<i128>,
    pub pk_1: Vec<i128>,
}

/// A ciphertext: the two polynomials reduced into `[0, MODULUS)`.
pub struct Ciphertext {
    pub c_0: Vec<i128>,
    pub c_1: Vec<i128>,
}

/// What `encrypt` computes on one row: `a = (mat * r)[i] + e[i] + m[i]`, then
/// the quotient and remainder of `a` by `MODULUS`.
pub open spec fn encrypted_value(mat: Seq<i128>, r: Seq<i128>, e: Seq<i128>, m: int, i: int) -> int {
    row_dot(mat, r, i, NUM_DIMENSION as int) + e[i] as int + m
}

proof fn lemma_div_mod_neg(t: int, l: int)
    requires
        l > 0,
        -l < t < 0,
    ensures
        t / l == -1,
        t % l == t + l,
{
    vstd::arithmetic::div_mod::lemma_fundamental_div_mod_converse(t, l, -1, t + l);
}

proof fn lemma_row_index_bound(i: int, j: int, l: int, n: int)
    requires
        0 <= i < n,
        0 <= j < l,
    ensures
        0 <= i * l + j < n * l,
        i * l + j < (i + 1) * l,
        (i + 1) * l <= n * l,
{
    assert(i * l + j < (i + 1) * l) by (nonlinear_arith)
        requires
            0 <= j < l,
    ;
    assert((i + 1) * l <= n * l) by (nonlinear_arith)
        requires
            i + 1 <= n,
            0 <= l,
    ;
    assert(0 <= i * l) by (nonlinear_arith)
        requires
            0 <= i,
            0 <= l,
    ;
}

/// Builds the negacyclic matrix of `p`: `NUM_DIMENSION` rows of length `p.len()`.
fn negacyclic_matrix(p: &Vec<i128>) -> (mat: Vec<i128>)
    requires
        p.len() >= 1,
        NUM_DIMENSION * p.len() <= usize::MAX,
        forall|k: int| 0 <= k < p.len() ==> p[k] != i128::MIN,
    ensures
        is_negacyclic_matrix(mat@, p@),
{
    let l = p.len();
    let mut mat: Vec<i128> = Vec::new();
    let mut i: usize = 0;
    while i < NUM_DIMENSION
        invariant
            l == p.len(),
            l >= 1,
            NUM_DIMENSION * l <= usize::MAX,
            i <= NUM_DIMENSION,
            mat.len() == i * l,
            forall|k: int| 0 <= k < l ==> p[k] != i128::MIN,
            forall|ii: int, jj: int|
                0 <= ii < i && 0 <= jj < l ==> mat@[ii * l + jj] as int
                    == #[trigger] negacyclic_entry(p@, ii, jj),
        decreases NUM_DIMENSION - i,
    {
        let mut j: usize = 0;
        while j < l
            invariant
                l == p.len(),
                l >= 1,
                NUM_DIMENSION * l <= usize::MAX,
                i < NUM_DIMENSION,
                j <= l,
                mat.len() == i * l + j,
                forall|k: int| 0 <= k < l ==> p[k] != i128::MIN,
                forall|ii: int, jj: int|
                    0 <= ii < i && 0 <= jj < l ==> mat@[ii * l + jj] as int
                        == #[trigger] negacyclic_entry(p@, ii, jj),
                forall|jj: int|
                    0 <= jj < j ==> mat@[i * l + jj] as int == #[trigger] negacyclic_entry(
                        p@,
                        i as int,
                        jj,
                    ),
            decreases l - j,
        {
            let entry: i128 = if j <= i {
                let t = i - j;
                let q = t / l;
                let r = t % l;
                if q % 2 == 0 {
                    p[r]
                } else {
                    -p[r]
                }
            } else {
                proof {
                    lemma_div_mod_neg(i - j, l as int);
                }
                -p[l - (j - i)]
            };
            proof {
                lemma_row_index_bound(i as int, j as int, l as int, NUM_DIMENSION as int);
            }
            mat.push(entry);
            proof {
                assert forall|ii: int, jj: int|
                    0 <= ii < i && 0 <= jj < l implies mat@[ii * l + jj] as int
                        == #[trigger] negacyclic_entry(p@, ii, jj) by {
                    lemma_row_index_bound(ii, jj, l as int, i as int);
                }
            }
            j = j + 1;
        }
        i = i + 1;
        proof {
            assert forall|ii: int, jj: int|
                0 <= ii < i && 0 <= jj < l implies mat@[ii * l + jj] as int
                    == #[trigger] negacyclic_entry(p@, ii, jj) by {
                if ii == i - 1 {
                } else {
                }
            }
            assert(mat.len() == i * l) by (nonlinear_arith)
                requires
                    mat.len() == (i - 1) * l + l,
            ;
        }
    }
    mat
}


/// Every coefficient among the first `NUM_DIMENSION * NUM_DIMENSION` lies in
/// `(-PK_BOUND, PK_BOUND)`.
pub open spec fn key_matrix_bounded(mat: Seq<i128>) -> bool {
    &&& mat.len() >= NUM_DIMENSION * NUM_DIMENSION
    &&& forall|k: int|
        0 <= k < NUM_DIMENSION * NUM_DIMENSION ==> -PK_BOUND < #[trigger] mat[k] < PK_BOUND
}

/// The first `NUM_DIMENSION` entries of `v` lie in `[-bound, bound]`.
pub open spec fn prefix_bounded(v: Seq<i128>, bound: int) -> bool {
    &&& v.len() >= NUM_DIMENSION
    &&& forall|k: int| 0 <= k < NUM_DIMENSION ==> -bound <= #[trigger] v[k] <= bound
}

proof fn lemma_row_dot_bound(mat: Seq<i128>, v: Seq<i128>, i: int, n: int)
    requires
        key_matrix_bounded(mat),
        prefix_bounded(v, 2),
        0 <= i < NUM_DIMENSION,
        0 <= n <= NUM_DIMENSION,
    ensures
        -n * 2 * PK_BOUND <= row_dot(mat, v, i, n) <= n * 2 * PK_BOUND,
    decreases n,
{
    if n > 0 {
        lemma_row_dot_bound(mat, v, i, n - 1);
        lemma_row_index_bound(i, n - 1, NUM_DIMENSION as int, NUM_DIMENSION as int);
        let a = v[n - 1] as int;
        let b = mat[i * NUM_DIMENSION + (n - 1)] as int;
        assert(-PK_BOUND < b < PK_BOUND);
        assert(-2 * PK_BOUND <= a * b <= 2 * PK_BOUND) by (nonlinear_arith)
            requires
                -2 <= a <= 2,
                -PK_BOUND < b < PK_BOUND,
        ;
    }
}

proof fn lemma_bounded_key_fits(mat: Seq<i128>, v: Seq<i128>)
    requires
        key_matrix_bounded(mat),
        prefix_bounded(v, 2),
    ensures
        matrix_mut_fits(mat, v),
        forall|i: int|
            0 <= i < NUM_DIMENSION ==> -0x4000_0000_0000_0000_0000_0000_0000_0000 <= #[trigger] row_dot(
                mat,
                v,
                i,
                NUM_DIMENSION as int,
            ) <= 0x4000_0000_0000_0000_0000_0000_0000_0000,
{
    assert forall|i: int, n: int|
        0 <= i < NUM_DIMENSION && 0 <= n <= NUM_DIMENSION implies i128::MIN <= #[trigger] row_dot(
        mat,
        v,
        i,
        n,
    ) <= i128::MAX by {
        lemma_row_dot_bound(mat, v, i, n);
    }
    assert forall|i: int, j: int|
        0 <= i < NUM_DIMENSION && 0 <= j < NUM_DIMENSION implies i128::MIN <= (v[j] as int) * (
    #[trigger] mat[i * NUM_DIMENSION + j] as int) <= i128::MAX by {
        lemma_row_index_bound(i, j, NUM_DIMENSION as int, NUM_DIMENSION as int);
        let a = v[j] as int;
        let b = mat[i * NUM_DIMENSION + j] as int;
        assert(-2 * PK_BOUND <= a * b <= 2 * PK_BOUND) by (nonlinear_arith)
            requires
                -2 <= a <= 2,
                -PK_BOUND < b < PK_BOUND,
        ;
    }
    assert forall|i: int| 0 <= i < NUM_DIMENSION implies -0x4000_0000_0000_0000_0000_0000_0000_0000
        <= #[trigger] row_dot(mat, v, i, NUM_DIMENSION as int)
        <= 0x4000_0000_0000_0000_0000_0000_0000_0000 by {
        lemma_row_dot_bound(mat, v, i, NUM_DIMENSION as int);
    }
}


/// A negacyclic key matrix built from a polynomial of `NUM_DIMENSION`
/// coefficients inside `(-PK_BOUND, PK_BOUND)` is bounded by `PK_BOUND`.
pub proof fn lemma_negacyclic_bounded(mat: Seq<i128>, p: Seq<i128>)
    requires
        p.len() == NUM_DIMENSION,
        is_negacyclic_matrix(mat, p),
        forall|k: int| 0 <= k < NUM_DIMENSION ==> -PK_BOUND < #[trigger] p[k] < PK_BOUND,
    ensures
        key_matrix_bounded(mat),
{
    let n = NUM_DIMENSION as int;
    assert forall|k: int| 0 <= k < n * n implies -PK_BOUND < #[trigger] mat[k] < PK_BOUND by {
        let i = k / n;
        let j = k % n;
        vstd::arithmetic::div_mod::lemma_fundamental_div_mod(k, n);
        vstd::arithmetic::div_mod::lemma_mod_bound(k, n);
        vstd::arithmetic::div_mod::lemma_div_pos_is_pos(k, n);
        assert(i < n) by {
            vstd::arithmetic::div_mod::lemma_div_is_ordered(k, n * n - 1, n);
            vstd::arithmetic::div_mod::lemma_div_multiples_vanish_fancy(n - 1, n - 1, n);
        }
        assert(k == i * n + j) by (nonlinear_arith)
            requires
                k == n * i + j,
        ;
        assert(mat[i * n + j] as int == negacyclic_entry(p, i, j));
        let r = (i - j) % n;
        vstd::arithmetic::div_mod::lemma_mod_bound(i - j, n);
        assert(-PK_BOUND < p[r] < PK_BOUND);
    }
}

impl PublicKey {
    /// Builds the negacyclic matrices `[p0, -p_{L-1}, ..., -p1; p1, p0, ...; ...]`
    /// of the two key polynomials, `NUM_DIMENSION` rows each.
    pub fn new(opk0: &Vec<i128>, opk1: &Vec<i128>) -> (pk: Self)
        requires
            opk0.len() >= 1,
            opk1.len() >= 1,
            NUM_DIMENSION * opk0.len() <= usize::MAX,
            NUM_DIMENSION * opk1.len() <= usize::MAX,
            forall|k: int| 0 <= k < opk0.len() ==> opk0[k] != i128::MIN,
            forall|k: int| 0 <= k < opk1.len() ==> opk1[k] != i128::MIN,
        ensures
            is_negacyclic_matrix(pk.pk_0@, opk0@),
            is_negacyclic_matrix(pk.pk_1@, opk1@),
    {
        let pk_0 = negacyclic_matrix(opk0);
        let pk_1 = negacyclic_matrix(opk1);
        PublicKey { pk_0, pk_1 }
    }

    /// Multiplies the `NUM_DIMENSION x NUM_DIMENSION` row-major matrix `mat`
    /// with the vector `v`.
    pub fn matrix_mut(mat: &Vec<i128>, v: &Vec<i128>) -> (ret: Vec<i128>)
        requires
            mat.len() >= NUM_DIMENSION * NUM_DIMENSION,
            v.len() >= NUM_DIMENSION,
            matrix_mut_fits(mat@, v@),
        ensures
            ret.len() == NUM_DIMENSION,
            forall|i: int|
                0 <= i < NUM_DIMENSION ==> ret[i] as int == #[trigger] row_dot(
                    mat@,
                    v@,
                    i,
                    NUM_DIMENSION as int,
                ),
    {
        let mut ret: Vec<i128> = Vec::new();
        let mut i: usize = 0;
        while i < NUM_DIMENSION
            invariant
                i <= NUM_DIMENSION,
                mat.len() >= NUM_DIMENSION * NUM_DIMENSION,
                v.len() >= NUM_DIMENSION,
                matrix_mut_fits(mat@, v@),
                ret.len() == i,
                forall|k: int|
                    0 <= k < i ==> ret[k] as int == #[trigger] row_dot(
                        mat@,
                        v@,
                        k,
                        NUM_DIMENSION as int,
                    ),
            decreases NUM_DIMENSION - i,
        {
            let mut s: i128 = 0;
            let mut j: usize = 0;
            while j < NUM_DIMENSION
                invariant
                    i < NUM_DIMENSION,
                    j <= NUM_DIMENSION,
                    mat.len() >= NUM_DIMENSION * NUM_DIMENSION,
                    v.len() >= NUM_DIMENSION,
                    matrix_mut_fits(mat@, v@),
                    s as int == row_dot(mat@, v@, i as int, j as int),
                decreases NUM_DIMENSION - j,
            {
                proof {
                    lemma_row_index_bound(
                        i as int,
                        j as int,
                        NUM_DIMENSION as int,
                        NUM_DIMENSION as int,
                    );
                    let _ = row_dot(mat@, v@, i as int, j + 1);
                }
                let idx = i * NUM_DIMENSION + j;
                assert(i128::MIN <= (v[j as int] as int) * (mat[i * NUM_DIMENSION + j] as int)
                    <= i128::MAX);
                s = s + v[j] * mat[idx];
                j = j + 1;
            }
            ret.push(s);
            i = i + 1;
        }
        ret
    }

    /// Encrypts the first `NUM_DIMENSION` entries of `m` with the given
    /// randomness `r` and noise `e0`, `e1`; returns `(r, e0, e1, delta_0,
    /// delta_1, ct)` where `pk_k * r + e_k (+ m) = c_k + delta_k * MODULUS`.
    pub fn encrypt_with_randomness(
        &self,
        m: &Vec<u8>,
        r: Vec<i128>,
        e0: Vec<i128>,
        e1: Vec<i128>,
    ) -> (res: (Vec<i128>, Vec<i128>, Vec<i128>, Vec<i32>, Vec<i32>, Ciphertext))
        requires
            key_matrix_bounded(self.pk_0@),
            key_matrix_bounded(self.pk_1@),
            prefix_bounded(r@, 2),
            prefix_bounded(e0@, NOISE_BOUND as int),
            prefix_bounded(e1@, NOISE_BOUND as int),
            m.len() >= NUM_DIMENSION,
        ensures
            res.0 == r,
            res.1 == e0,
            res.2 == e1,
            res.3.len() == NUM_DIMENSION,
            res.4.len() == NUM_DIMENSION,
            res.5.c_0.len() == NUM_DIMENSION,
            res.5.c_1.len() == NUM_DIMENSION,
            forall|i: int|
                0 <= i < NUM_DIMENSION ==> {
                    let a0 = #[trigger] encrypted_value(self.pk_0@, r@, e0@, 0, i);
                    let a1 = encrypted_value(self.pk_1@, r@, e1@, m[i] as int, i);
                    &&& res.3[i] as int == a0 / (MODULUS as int)
                    &&& res.5.c_0[i] as int == a0 % (MODULUS as int)
                    &&& res.4[i] as int == a1 / (MODULUS as int)
                    &&& res.5.c_1[i] as int == a1 % (MODULUS as int)
                    &&& 0 <= res.5.c_0[i] < MODULUS
                    &&& 0 <= res.5.c_1[i] < MODULUS
                    &&& res.5.c_0[i] + res.3[i] * MODULUS == a0
                    &&& res.5.c_1[i] + res.4[i] * MODULUS == a1
                },
    {
        proof {
            lemma_bounded_key_fits(self.pk_0@, r@);
            lemma_bounded_key_fits(self.pk_1@, r@);
        }
        let pkr0 = PublicKey::matrix_mut(&self.pk_0, &r);
        let pkr1 = PublicKey::matrix_mut(&self.pk_1, &r);
        let mut c_0: Vec<i128> = Vec::new();
        let mut c_1: Vec<i128> = Vec::new();
        let mut delta_0: Vec<i32> = Vec::new();
        let mut delta_1: Vec<i32> = Vec::new();
        let mut i: usize = 0;
        while i < NUM_DIMENSION
            invariant
                i <= NUM_DIMENSION,
                pkr0.len() == NUM_DIMENSION,
                pkr1.len() == NUM_DIMENSION,
                m.len() >= NUM_DIMENSION,
                prefix_bounded(e0@, NOISE_BOUND as int),
                prefix_bounded(e1@, NOISE_BOUND as int),
                forall|k: int|
                    0 <= k < NUM_DIMENSION ==> pkr0[k] as int == #[trigger] row_dot(
                        self.pk_0@,
                        r@,
                        k,
                        NUM_DIMENSION as int,
                    ),
                forall|k: int|
                    0 <= k < NUM_DIMENSION ==> pkr1[k] as int == #[trigger] row_dot(
                        self.pk_1@,
                        r@,
                        k,
                        NUM_DIMENSION as int,
                    ),
                forall|k: int|
                    0 <= k < NUM_DIMENSION ==> -0x4000_0000_0000_0000_0000_0000_0000_0000
                        <= #[trigger] row_dot(self.pk_0@, r@, k, NUM_DIMENSION as int)
                        <= 0x4000_0000_0000_0000_0000_0000_0000_0000,
                forall|k: int|
                    0 <= k < NUM_DIMENSION ==> -0x4000_0000_0000_0000_0000_0000_0000_0000
                        <= #[trigger] row_dot(self.pk_1@, r@, k, NUM_DIMENSION as int)
                        <= 0x4000_0000_0000_0000_0000_0000_0000_0000,
                c_0.len() == i,
                c_1.len() == i,
                delta_0.len() == i,
                delta_1.len() == i,
                forall|k: int|
                    0 <= k < i ==> {
                        let a0 = #[trigger] encrypted_value(self.pk_0@, r@, e0@, 0, k);
                        let a1 = encrypted_value(self.pk_1@, r@, e1@, m[k] as int, k);
                        &&& delta_0[k] as int == a0 / (MODULUS as int)
                        &&& c_0[k] as int == a0 % (MODULUS as int)
                        &&& delta_1[k] as int == a1 / (MODULUS as int)
                        &&& c_1[k] as int == a1 % (MODULUS as int)
                        &&& 0 <= c_0[k] < MODULUS
                        &&& 0 <= c_1[k] < MODULUS
                        &&& c_0[k] + delta_0[k] * MODULUS == a0
                        &&& c_1[k] + delta_1[k] * MODULUS == a1
                    },
            decreases NUM_DIMENSION - i,
        {
            let ghost g0 = row_dot(self.pk_0@, r@, i as int, NUM_DIMENSION as int);
            let ghost g1 = row_dot(self.pk_1@, r@, i as int, NUM_DIMENSION as int);
            let a0: i128 = pkr0[i] + e0[i];
            let a1: i128 = pkr1[i] + e1[i] + m[i] as i128;
            let ghost ga0 = encrypted_value(self.pk_0@, r@, e0@, 0, i as int);
            let ghost ga1 = encrypted_value(self.pk_1@, r@, e1@, m[i as int] as int, i as int);
            assert(a0 == ga0);
            assert(a1 == ga1);
            proof {
                let mm = MODULUS as int;
                vstd::arithmetic::div_mod::lemma_fundamental_div_mod(a0 as int, mm);
                vstd::arithmetic::div_mod::lemma_fundamental_div_mod(a1 as int, mm);
                vstd::arithmetic::div_mod::lemma_mod_bound(a0 as int, mm);
                vstd::arithmetic::div_mod::lemma_mod_bound(a1 as int, mm);
                assert(-0x4000_0000_0000_0000_0000_0000_0000_0000 - 0x20_0000 <= a0 as int
                    <= 0x4000_0000_0000_0000_0000_0000_0000_0000 + 0x20_0000);
                assert(-0x4000_0000_0000_0000_0000_0000_0000_0000 - 0x20_0000 <= a1 as int
                    <= 0x4000_0000_0000_0000_0000_0000_0000_0000 + 0x20_0000);
                lemma_quotient_fits_i32(a0 as int);
                lemma_quotient_fits_i32(a1 as int);
            }
            let q0 = a0.checked_div_euclid(MODULUS).unwrap();
            let q1 = a1.checked_div_euclid(MODULUS).unwrap();
            let r0 = a0.checked_rem_euclid(MODULUS).unwrap();
            let r1 = a1.checked_rem_euclid(MODULUS).unwrap();
            delta_0.push(q0 as i32);
            delta_1.push(q1 as i32);
            c_0.push(r0);
            c_1.push(r1);
            i = i + 1;
        }
        (r, e0, e1, delta_0, delta_1, Ciphertext { c_0, c_1 })
    }

    /// Encrypts the first `NUM_DIMENSION` entries of `m` under this key with
    /// fresh ternary randomness in `{0, 1, 2}` and the given noise.
    pub fn encrypt(&self, m: Vec<u8>, e0: Vec<i128>, e1: Vec<i128>) -> (res: (
        Vec<i128>,
        Vec<i128>,
        Vec<i128>,
        Vec<i32>,
        Vec<i32>,
        Ciphertext,
    ))
        requires
            key_matrix_bounded(self.pk_0@),
            key_matrix_bounded(self.pk_1@),
            prefix_bounded(e0@, NOISE_BOUND as int),
            prefix_bounded(e1@, NOISE_BOUND as int),
            m.len() >= NUM_DIMENSION,
        ensures
            res.0.len() == NUM_DIMENSION,
            forall|k: int| 0 <= k < NUM_DIMENSION ==> 0 <= #[trigger] res.0[k] < 3,
            res.1 == e0,
            res.2 == e1,
            res.3.len() == NUM_DIMENSION,
            res.4.len() == NUM_DIMENSION,
            res.5.c_0.len() == NUM_DIMENSION,
            res.5.c_1.len() == NUM_DIMENSION,
            forall|i: int|
                0 <= i < NUM_DIMENSION ==> {
                    let a0 = #[trigger] encrypted_value(self.pk_0@, res.0@, e0@, 0, i);
                    let a1 = encrypted_value(self.pk_1@, res.0@, e1@, m[i] as int, i);
                    &&& res.3[i] as int == a0 / (MODULUS as int)
                    &&& res.5.c_0[i] as int == a0 % (MODULUS as int)
                    &&& res.4[i] as int == a1 / (MODULUS as int)
                    &&& res.5.c_1[i] as int == a1 % (MODULUS as int)
                },
    {
        let r = sample_ternary();
        self.encrypt_with_randomness(&m, r, e0, e1)
    }
}

proof fn lemma_quotient_fits_i32(a: int)
    requires
        -0x4000_0000_0000_0000_0000_0000_0000_0000 - 0x20_0000 <= a
            <= 0x4000_0000_0000_0000_0000_0000_0000_0000 + 0x20_0000,
    ensures
        i32::MIN <= a / (MODULUS as int) <= i32::MAX,
{
    let mm = MODULUS as int;
    vstd::arithmetic::div_mod::lemma_fundamental_div_mod(a, mm);
    vstd::arithmetic::div_mod::lemma_mod_bound(a, mm);
    let q = a / mm;
    assert(mm * q == a - a % mm);
    if q > i32::MAX {
        assert(mm * q >= mm * (i32::MAX as int + 1)) by (nonlinear_arith)
            requires
                q >= i32::MAX as int + 1,
                mm > 0,
        ;
    }
    if q < i32::MIN {
        assert(mm * q <= mm * (i32::MIN as int - 1)) by (nonlinear_arith)
            requires
                q <= i32::MIN as int - 1,
                mm > 0,
        ;
    }
}

/// Opaque handle on the standard generator of the `rand` crate.
#[verifier::external_type_specification]
#[verifier::external_body]
pub struct ExStdRng(rand::rngs::StdRng);

/// Seeds `rand::rngs::StdRng` from operating-system entropy
/// (`SeedableRng::from_entropy`); nothing is claimed of the seed.
#[verifier::external_body]
pub(crate) fn entropy_rng() -> rand::rngs::StdRng {
    rand::rngs::StdRng::from_entropy()
}

/// `Rng::gen_range(lo..hi)` of the `rand` crate: a value drawn from the
/// half-open range `[lo, hi)`; the call panics on an empty range, which the
/// `requires` excludes. Which value comes back is left to chance.
#[verifier::external_body]
pub(crate) fn gen_range_i128(rng: &mut rand::rngs::StdRng, lo: i128, hi: i128) -> (x: i128)
    requires
        lo < hi,
    ensures
        lo <= x < hi,
{
    rng.gen_range(lo..hi)
}

/// Samples `NUM_DIMENSION` offset-ternary coefficients from `{0, 1, 2}`.
pub fn sample_ternary() -> (r: Vec<i128>)
    ensures
        r.len() == NUM_DIMENSION,
        forall|k: int| 0 <= k < NUM_DIMENSION ==> 0 <= #[trigger] r[k] < 3,
{
    let mut rng = entropy_rng();
    let mut r: Vec<i128> = Vec::new();
    let mut i: usize = 0;
    while i < NUM_DIMENSION
        invariant
            i <= NUM_DIMENSION,
            r.len() == i,
            forall|k: int| 0 <= k < i ==> 0 <= #[trigger] r[k] < 3,
        decreases NUM_DIMENSION - i,
    {
        let x = gen_range_i128(&mut rng, 0, 3);
        r.push(x);
        i = i + 1;
    }
    r
}

/// Coefficient `i` of the product of `p` and `r` in `Z[X]/(X^N + 1)`, with
/// `N = NUM_DIMENSION`, over the first `n` coefficients of `r`: the sum over
/// `j < n` of `p[i - j] * r[j]` for `j <= i`, and of `-p[N + i - j] * r[j]`
/// for `j > i` (where `X^N` wraps around to `-1`).
pub open spec fn ring_product_coeff(p: Seq<i128>, r: Seq<i128>, i: int, n: int) -> int
    decreases n,
{
    if n <= 0 {
        0
    } else {
        let j = n - 1;
        let c = if j <= i { p[i - j] as int } else { -(p[NUM_DIMENSION + i - j] as int) };
        ring_product_coeff(p, r, i, n - 1) + (r[j] as int) * c
    }
}

/// Multiplying by the negacyclic matrix of a key polynomial `p` of
/// `NUM_DIMENSION` coefficients is multiplication by `p` in
/// `Z[X]/(X^N + 1)`: row `i` of the matrix times `r` is coefficient `i` of
/// `p * r`, so `matrix_mut` over `PublicKey::new`'s matrices multiplies
/// polynomials.
pub proof fn lemma_matrix_is_ring_product(mat: Seq<i128>, p: Seq<i128>, r: Seq<i128>, i: int, n: int)
    requires
        is_negacyclic_matrix(mat, p),
        p.len() == NUM_DIMENSION,
        0 <= i < NUM_DIMENSION,
        0 <= n <= NUM_DIMENSION,
    ensures
        row_dot(mat, r, i, n) == ring_product_coeff(p, r, i, n),
    decreases n,
{
    if n > 0 {
        lemma_matrix_is_ring_product(mat, p, r, i, n - 1);
        let j = n - 1;
        let l = NUM_DIMENSION as int;
        assert(mat[i * p.len() + j] as int == negacyclic_entry(p, i, j));
        if j <= i {
            vstd::arithmetic::div_mod::lemma_small_mod((i - j) as nat, l as nat);
            vstd::arithmetic::div_mod::lemma_fundamental_div_mod_converse(i - j, l, 0, i - j);
            assert(negacyclic_entry(p, i, j) == p[i - j] as int);
        } else {
            lemma_div_mod_neg(i - j, l);
            assert(negacyclic_entry(p, i, j) == -(p[l + i - j] as int));
        }
    }
}

/// The law for a whole public key: where `PublicKey::new(p0, p1)` built
/// `pk` (its matrices are the negacyclic matrices of `p0` and `p1`),
/// `PublicKey::matrix_mut(&pk.pk_0, r)` holds, entry by entry, the
/// coefficients of `p0 * r` in `Z[X]/(X^N + 1)`, and
/// `PublicKey::matrix_mut(&pk.pk_1, r)` those of `p1 * r`.
pub proof fn lemma_key_products(pk: PublicKey, p0: Seq<i128>, p1: Seq<i128>, r: Seq<i128>)
    requires
        is_negacyclic_matrix(pk.pk_0@, p0),
        is_negacyclic_matrix(pk.pk_1@, p1),
        p0.len() == NUM_DIMENSION,
        p1.len() == NUM_DIMENSION,
    ensures
        forall|i: int|
            0 <= i < NUM_DIMENSION ==> #[trigger] row_dot(pk.pk_0@, r, i, NUM_DIMENSION as int)
                == ring_product_coeff(p0, r, i, NUM_DIMENSION as int),
        forall|i: int|
            0 <= i < NUM_DIMENSION ==> #[trigger] row_dot(pk.pk_1@, r, i, NUM_DIMENSION as int)
                == ring_product_coeff(p1, r, i, NUM_DIMENSION as int),
{
    assert forall|i: int| 0 <= i < NUM_DIMENSION implies #[trigger] row_dot(pk.pk_0@, r, i, NUM_DIMENSION as int)
        == ring_product_coeff(p0, r, i, NUM_DIMENSION as int) by {
        lemma_matrix_is_ring_product(pk.pk_0@, p0, r, i, NUM_DIMENSION as int);
    }
    assert forall|i: int| 0 <= i < NUM_DIMENSION implies #[trigger] row_dot(pk.pk_1@, r, i, NUM_DIMENSION as int)
        == ring_product_coeff(p1, r, i, NUM_DIMENSION as int) by {
        lemma_matrix_is_ring_product(pk.pk_1@, p1, r, i, NUM_DIMENSION as int);
    }
}

} // verus!
