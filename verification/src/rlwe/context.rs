//! Shamir secret sharing and number-theoretic transforms modulo one of the
//! ciphertext primes, on top of the `Cupcake` crate's modular arithmetic.
use vstd::prelude::*;
use cupcake::integer_arith::scalar::Scalar;
use cupcake::integer_arith::ArithUtils;
use rand::Rng;
use crate::rlwe::{entropy_rng, NUM_DIMENSION};

verus! {

/// The three primes whose product is the ciphertext modulus.
pub const MODULUS: [u64; 3] = [0xffffee001u64, 0xffffc4001u64, 0x1ffffe0001u64];

/// Moduli are kept below `2^62`, where `Cupcake`'s reductions are exact.
pub const MODULUS_LIMIT: u64 = 0x4000_0000_0000_0000;

#[verifier::external_type_specification]
#[verifier::external_body]
pub struct ExScalar(Scalar);

/// A modulus `q` together with the reduction data `Cupcake` keeps for it.
pub struct Modulus {
    q: u64,
    scalar: Scalar,
}

impl Modulus {
    /// The modulus as a number.
    pub closed spec fn value(&self) -> u64 {
        self.q
    }

    /// The modulus as a number.
    pub fn rep(&self) -> (q: u64)
        ensures
            q == self.value(),
    {
        self.q
    }
}

/// `Scalar::new_modulus(q)` of `Cupcake`: the modulus `q` with its
/// reduction data.
#[verifier::external_body]
pub fn new_modulus(q: u64) -> (m: Modulus)
    requires
        1 < q < MODULUS_LIMIT,
    ensures
        m.value() == q,
{
    Modulus { q, scalar: Scalar::new_modulus(q) }
}

/// `Scalar::mul_mod` of `Cupcake` (a Barrett reduction): `a * b mod q` for
/// `a, b < q`.
#[verifier::external_body]
pub fn mul_mod(a: u64, b: u64, m: &Modulus) -> (r: u64)
    requires
        a < m.value(),
        b < m.value(),
        1 < m.value() < MODULUS_LIMIT,
    ensures
        r == (a as int * b as int) % (m.value() as int),
{
    Scalar::mul_mod(&Scalar::from(a), &Scalar::from(b), &m.scalar).rep()
}

/// `Scalar::add_mod` of `Cupcake`: `a + b mod q` for `a, b < q`.
#[verifier::external_body]
pub fn add_mod(a: u64, b: u64, m: &Modulus) -> (r: u64)
    requires
        a < m.value(),
        b < m.value(),
        1 < m.value() < MODULUS_LIMIT,
    ensures
        r == (a as int + b as int) % (m.value() as int),
{
    Scalar::add_mod(&Scalar::from(a), &Scalar::from(b), &m.scalar).rep()
}

/// `Scalar::sub_mod` of `Cupcake`: `a - b mod q` for `a, b < q`.
#[verifier::external_body]
pub fn sub_mod(a: u64, b: u64, m: &Modulus) -> (r: u64)
    requires
        a < m.value(),
        b < m.value(),
        1 < m.value() < MODULUS_LIMIT,
    ensures
        r == (a as int - b as int) % (m.value() as int),
{
    Scalar::sub_mod(&Scalar::from(a), &Scalar::from(b), &m.scalar).rep()
}

/// `Scalar::modulus` of `Cupcake`: `a mod q`.
#[verifier::external_body]
pub fn reduce(a: u64, m: &Modulus) -> (r: u64)
    requires
        1 < m.value() < MODULUS_LIMIT,
    ensures
        r == a % m.value(),
{
    Scalar::modulus(&Scalar::from(a), &m.scalar).rep()
}

/// `Scalar::sample_blw(q)` of `Cupcake`: a value below `q` drawn from an
/// entropy-seeded generator; which one is left to chance.
#[verifier::external_body]
pub fn sample_below(m: &Modulus) -> (r: u64)
    requires
        1 < m.value() < MODULUS_LIMIT,
    ensures
        r < m.value(),
{
    Scalar::sample_blw(&m.scalar).rep()
}

/// The greatest common divisor, computed as the extended Euclidean
/// algorithm behind `Cupcake`'s inverse does.
pub open spec fn gcd(a: nat, b: nat) -> nat
    decreases a,
{
    if a == 0 {
        b
    } else {
        gcd(b % a, a)
    }
}

/// Computes `gcd`.
pub fn gcd_exec(a: u64, b: u64) -> (g: u64)
    ensures
        g == gcd(a as nat, b as nat),
{
    let mut x = a;
    let mut y = b;
    while x != 0
        invariant
            gcd(x as nat, y as nat) == gcd(a as nat, b as nat),
        decreases x,
    {
        let t = y % x;
        y = x;
        x = t;
    }
    y
}

/// `Scalar::inv_mod` of `Cupcake`: the inverse of `a` modulo `q`, which
/// exists where `gcd(a, q) == 1` (elsewhere the call panics).
#[verifier::external_body]
pub fn inv_mod(a: u64, m: &Modulus) -> (r: u64)
    requires
        gcd(a as nat, m.value() as nat) == 1,
        1 < m.value() < MODULUS_LIMIT,
    ensures
        r < m.value(),
        (a as int * r as int) % (m.value() as int) == 1,
{
    Scalar::inv_mod(&Scalar::from(a), &m.scalar).rep()
}

/// `Rng::gen_range(lo..hi)` of the `rand` crate on `u64`: a value of the
/// non-empty range `[lo, hi)`, left to chance.
#[verifier::external_body]
fn gen_range_u64(rng: &mut rand::rngs::StdRng, lo: u64, hi: u64) -> (x: u64)
    requires
        lo < hi,
    ensures
        lo <= x < hi,
{
    rng.gen_range(lo..hi)
}

/// `x^j mod q`, reduced at every step.
pub open spec fn pow_mod(x: int, j: nat, q: int) -> int
    decreases j,
{
    if j == 0 {
        1int % q
    } else {
        (pow_mod(x, (j - 1) as nat, q) * x) % q
    }
}

/// `sum_{i < k} x^i * poly[i]`.
pub open spec fn poly_sum(poly: Seq<u64>, x: int, k: int) -> int
    decreases k,
{
    if k <= 0 {
        0
    } else {
        poly_sum(poly, x, k - 1) + vstd::arithmetic::power::pow(x, (k - 1) as nat) * poly[k - 1] as int
    }
}

pub proof fn lemma_pow_mod(x: int, j: nat, q: int)
    requires
        q > 0,
    ensures
        pow_mod(x, j, q) == vstd::arithmetic::power::pow(x, j) % q,
    decreases j,
{
    if j > 0 {
        lemma_pow_mod(x, (j - 1) as nat, q);
        let p = vstd::arithmetic::power::pow(x, (j - 1) as nat);
        vstd::arithmetic::power::lemma_pow1(x);
        vstd::arithmetic::power::lemma_pow_adds(x, (j - 1) as nat, 1);
        assert((j - 1) as nat + 1 == j);
        assert(vstd::arithmetic::power::pow(x, j) == p * x);
        vstd::arithmetic::div_mod::lemma_mul_mod_noop_left(p, x, q);
    } else {
        vstd::arithmetic::power::lemma_pow0(x);
    }
}

/// Shamir sharing of secrets modulo a prime among `share_cnt` holders with
/// threshold `threshold`: holder `i` gets the value at `i + 1` of a random
/// polynomial of degree `threshold` whose constant term is the secret.
pub struct ShamirContext {
    pub modulus: Modulus,
    pub share_cnt: usize,
    pub threshold: usize,
    pub eval_matrix: Vec<Vec<u64>>,
}

impl ShamirContext {
    /// Row `i` of the evaluation matrix holds the powers `(i + 1)^j mod q`
    /// for `j <= threshold`.
    pub open spec fn wf(&self) -> bool {
        let q = self.modulus.value() as int;
        &&& 1 < q < MODULUS_LIMIT
        &&& self.threshold < usize::MAX
        &&& self.eval_matrix.len() == self.share_cnt
        &&& forall|i: int|
            0 <= i < self.share_cnt ==> (#[trigger] self.eval_matrix@[i])@.len() == self.threshold + 1 && forall|j: int|
                0 <= j <= self.threshold ==> self.eval_matrix@[i]@[j] == pow_mod(i + 1, j as nat, q)
    }

    /// `shares` are the values at `1, 2, ...`, reduced modulo `q`, of a
    /// polynomial with `threshold + 1` coefficients below `q` whose constant
    /// coefficient is `secret`.
    pub open spec fn is_sharing(&self, secret: u64, shares: Seq<u64>) -> bool {
        exists|poly: Seq<u64>| #[trigger] self.shares_poly(secret, shares, poly)
    }

    /// `shares` are the values of `poly`, as `is_sharing` says.
    pub open spec fn shares_poly(&self, secret: u64, shares: Seq<u64>, poly: Seq<u64>) -> bool {
        &&& poly.len() == self.threshold + 1
        &&& poly[0] == secret
        &&& forall|k: int| 0 <= k < poly.len() ==> #[trigger] poly[k] < self.modulus.value()
        &&& forall|i: int|
            0 <= i < shares.len() ==> #[trigger] shares[i] == poly_sum(poly, i + 1, poly.len() as int)
                % (self.modulus.value() as int)
    }

    /// The context for `share_cnt` holders and threshold `threshold` modulo
    /// `prime`; holder `i` gets the value at `i + 1`, reduced modulo
    /// `prime`.
    pub fn init(prime: u64, share_cnt: usize, threshold: usize) -> (c: Self)
        requires
            1 < prime < MODULUS_LIMIT,
            threshold < usize::MAX,
        ensures
            c.wf(),
            c.modulus.value() == prime,
            c.share_cnt == share_cnt,
            c.threshold == threshold,
    {
        let modulus = new_modulus(prime);
        let ghost q = prime as int;
        let mut eval_matrix: Vec<Vec<u64>> = Vec::new();
        let mut i: usize = 0;
        while i < share_cnt
            invariant
                modulus.value() == prime,
                q == prime,
                1 < prime < MODULUS_LIMIT,
                threshold < usize::MAX,
                i <= share_cnt,
                eval_matrix.len() == i,
                forall|a: int|
                    0 <= a < i ==> (#[trigger] eval_matrix@[a])@.len() == threshold + 1 && forall|j: int|
                        0 <= j <= threshold ==> eval_matrix@[a]@[j] == pow_mod(a + 1, j as nat, q),
            decreases share_cnt - i,
        {
            let pt: u64 = reduce((i + 1) as u64, &modulus);
            let mut row: Vec<u64> = Vec::new();
            row.push(1u64);
            assert(pow_mod(i + 1, 0, q) == 1) by {
                vstd::arithmetic::div_mod::lemma_small_mod(1, q as nat);
            }
            let mut x_pow: u64 = pt;
            let mut j: usize = 1;
            assert(pow_mod(i + 1, 1, q) == pt) by {
                assert(pow_mod(i + 1, 0, q) == 1);
                assert(pow_mod(i + 1, 1, q) == (pow_mod(i + 1, 0, q) * (i + 1)) % q);
                assert(1 * (i + 1) == i + 1);
            }
            while j < threshold + 1
                invariant
                    modulus.value() == prime,
                    q == prime,
                    1 < prime < MODULUS_LIMIT,
                    pt == (i + 1) % q,
                    pt < prime,
                    1 <= j <= threshold + 1,
                    threshold < usize::MAX,
                    x_pow < prime,
                    x_pow == pow_mod(i + 1, j as nat, q),
                    row@.len() == j,
                    forall|t: int| 0 <= t < j ==> row@[t] == pow_mod(i + 1, t as nat, q),
                decreases threshold + 1 - j,
            {
                row.push(x_pow);
                x_pow = mul_mod(x_pow, pt, &modulus);
                j = j + 1;
                proof {
                    vstd::arithmetic::div_mod::lemma_mod_bound(pow_mod(i + 1, (j - 1) as nat, q) * (i + 1), q);
                    vstd::arithmetic::div_mod::lemma_mul_mod_noop_right(pow_mod(i + 1, (j - 1) as nat, q), i + 1, q);
                }
            }
            eval_matrix.push(row);
            i = i + 1;
        }
        ShamirContext { modulus, share_cnt, threshold, eval_matrix }
    }
}


/// `x` is an inverse of `a` modulo `q` in `[0, q)`.
pub open spec fn is_inverse(a: int, x: int, q: int) -> bool {
    0 <= x < q && (a * x) % q == 1
}

/// The inverse of `a` modulo `q`, where there is one.
pub open spec fn inverse(a: int, q: int) -> int {
    choose|x: int| #[trigger] is_inverse(a, x, q)
}

/// An inverse modulo `q` is unique in `[0, q)`.
proof fn lemma_inverse_unique(a: int, x: int, q: int)
    requires
        q > 1,
        0 <= x < q,
        (a * x) % q == 1,
    ensures
        inverse(a, q) == x,
{
    assert(is_inverse(a, x, q));
    let y = inverse(a, q);
    assert(is_inverse(a, y, q));
    vstd::arithmetic::mul::lemma_mul_is_associative(x, a, y);
    vstd::arithmetic::mul::lemma_mul_is_commutative(x, a);
    vstd::arithmetic::div_mod::lemma_mul_mod_noop_right(x, a * y, q);
    vstd::arithmetic::div_mod::lemma_mul_mod_noop_left(x * a, y, q);
    vstd::arithmetic::div_mod::lemma_small_mod(x as nat, q as nat);
    vstd::arithmetic::div_mod::lemma_small_mod(y as nat, q as nat);
}

/// The product of the points `xs[j]`, `j < k`, `j != i`, reduced modulo `q`
/// at every step.
pub open spec fn lagrange_num(xs: Seq<u64>, i: int, k: int, q: int) -> int
    decreases k,
{
    if k <= 0 {
        1
    } else {
        let p = lagrange_num(xs, i, k - 1, q);
        if k - 1 != i { (p * xs[k - 1] as int) % q } else { p }
    }
}

/// The product of the differences `xs[j] - xs[i]` modulo `q`, `j < k`,
/// `j != i`, reduced modulo `q` at every step.
pub open spec fn lagrange_den(xs: Seq<u64>, i: int, k: int, q: int) -> int
    decreases k,
{
    if k <= 0 {
        1
    } else {
        let p = lagrange_den(xs, i, k - 1, q);
        if k - 1 != i { (p * ((xs[k - 1] - xs[i]) % q)) % q } else { p }
    }
}

/// Every Lagrange denominator of the first `k` points among `n` is
/// invertible modulo `q`.
pub open spec fn dens_invertible(xs: Seq<u64>, n: int, k: int, q: int) -> bool {
    forall|i: int| 0 <= i < k ==> gcd(#[trigger] lagrange_den(xs, i, n, q) as nat, q as nat) == 1
}

/// `sum_{i < k} ys[i] * num_i * den_i^-1 mod q` over `n` points, reduced at
/// every step: the value at zero of the polynomial through the points.
pub open spec fn lagrange_acc(xs: Seq<u64>, ys: Seq<u64>, n: int, k: int, q: int) -> int
    decreases k,
{
    if k <= 0 {
        0
    } else {
        let i = k - 1;
        let w = (lagrange_num(xs, i, n, q) * inverse(lagrange_den(xs, i, n, q), q)) % q;
        (lagrange_acc(xs, ys, n, k - 1, q) + (ys[i] * w) % q) % q
    }
}

/// The points `1, 2, ..., n`.
pub open spec fn first_points(n: int) -> Seq<u64> {
    Seq::new(n as nat, |i: int| (i + 1) as u64)
}

impl ShamirContext {
    fn sample_polynomial(&self, secret: u64) -> (poly: Vec<u64>)
        requires
            self.wf(),
        ensures
            poly@.len() == self.threshold + 1,
            poly@[0] == secret,
            forall|k: int| 1 <= k < poly@.len() ==> #[trigger] poly@[k] < self.modulus.value() - 1,
    {
        let mut poly: Vec<u64> = Vec::new();
        poly.push(secret);
        let mut rng = entropy_rng();
        let q = self.modulus.rep();
        let mut k: usize = 0;
        while k < self.threshold
            invariant
                self.wf(),
                q == self.modulus.value(),
                k <= self.threshold,
                poly@.len() == k + 1,
                poly@[0] == secret,
                forall|t: int| 1 <= t < poly@.len() ==> #[trigger] poly@[t] < q - 1,
            decreases self.threshold - k,
        {
            let c = gen_range_u64(&mut rng, 0, q - 1);
            poly.push(c);
            k = k + 1;
        }
        poly
    }

    fn evaluate_polynomial(&self, poly: &Vec<u64>, x: usize) -> (r: u64)
        requires
            self.wf(),
            x < self.share_cnt,
            poly.len() <= self.threshold + 1,
            forall|k: int| 0 <= k < poly.len() ==> #[trigger] poly@[k] < self.modulus.value(),
        ensures
            r == poly_sum(poly@, x + 1, poly.len() as int) % (self.modulus.value() as int),
    {
        let ghost q = self.modulus.value() as int;
        let mut s: u64 = 0;
        let mut i: usize = 0;
        proof {
            vstd::arithmetic::div_mod::lemma_small_mod(0, q as nat);
        }
        while i < poly.len()
            invariant
                self.wf(),
                q == self.modulus.value(),
                x < self.share_cnt,
                poly.len() <= self.threshold + 1,
                forall|k: int| 0 <= k < poly.len() ==> #[trigger] poly@[k] < q,
                i <= poly.len(),
                s < q,
                s == poly_sum(poly@, x + 1, i as int) % q,
            decreases poly.len() - i,
        {
            let row = &self.eval_matrix[x];
            assert(row@.len() == self.threshold + 1);
            let e = row[i];
            proof {
                assert(e == pow_mod(x + 1, i as nat, q));
                lemma_pow_mod(x + 1, i as nat, q);
                vstd::arithmetic::div_mod::lemma_mod_bound(vstd::arithmetic::power::pow(x + 1, i as nat), q);
            }
            let t = mul_mod(e, poly[i], &self.modulus);
            proof {
                let pw = vstd::arithmetic::power::pow(x + 1, i as nat);
                vstd::arithmetic::div_mod::lemma_mul_mod_noop_left(pw, poly@[i as int] as int, q);
                vstd::arithmetic::div_mod::lemma_mod_bound(e as int * poly@[i as int] as int, q);
                vstd::arithmetic::div_mod::lemma_add_mod_noop(
                    poly_sum(poly@, x + 1, i as int),
                    pw * poly@[i as int] as int,
                    q,
                );
                vstd::arithmetic::div_mod::lemma_small_mod(s as nat, q as nat);
                vstd::arithmetic::div_mod::lemma_small_mod(t as nat, q as nat);
            }
            s = add_mod(s, t, &self.modulus);
            proof {
                vstd::arithmetic::div_mod::lemma_mod_bound(s as int + t as int, q);
            }
            i = i + 1;
        }
        s
    }

    /// Shares `secret`: share `i` is the value at `i + 1`, modulo `q`, of a
    /// polynomial of degree `threshold` with constant term `secret` and
    /// random other coefficients.
    pub fn share(&self, secret: u64) -> (ret: Vec<u64>)
        requires
            self.wf(),
            secret < self.modulus.value(),
        ensures
            ret.len() == self.share_cnt,
            self.is_sharing(secret, ret@),
    {
        let poly = self.sample_polynomial(secret);
        let mut ret: Vec<u64> = Vec::new();
        let mut i: usize = 0;
        while i < self.share_cnt
            invariant
                self.wf(),
                poly@.len() == self.threshold + 1,
                poly@[0] == secret,
                secret < self.modulus.value(),
                forall|k: int| 1 <= k < poly@.len() ==> #[trigger] poly@[k] < self.modulus.value() - 1,
                i <= self.share_cnt,
                ret.len() == i,
                forall|t: int|
                    0 <= t < i ==> #[trigger] ret@[t] == poly_sum(poly@, t + 1, poly@.len() as int) % (
                    self.modulus.value() as int),
            decreases self.share_cnt - i,
        {
            let y = self.evaluate_polynomial(&poly, i);
            ret.push(y);
            i = i + 1;
        }
        assert forall|k: int| 0 <= k < poly@.len() implies #[trigger] poly@[k] < self.modulus.value() by {
            if k >= 1 {
                assert(poly@[k] < self.modulus.value() - 1);
            }
        }
        assert(self.shares_poly(secret, ret@, poly@));
        ret
    }

    /// The value at zero, modulo `q`, of the polynomial through the points
    /// `(points[i], values[i])`, by Lagrange's formula; `None` where a
    /// denominator has no inverse modulo `q`.
    pub fn lagrange_interpolation_at_zero(&self, points: &Vec<u64>, values: &Vec<u64>) -> (r: Option<u64>)
        requires
            self.wf(),
            points.len() >= values.len(),
            forall|k: int| 0 <= k < points.len() ==> #[trigger] points@[k] < self.modulus.value(),
            forall|k: int| 0 <= k < values.len() ==> #[trigger] values@[k] < self.modulus.value(),
        ensures
            ({
                let q = self.modulus.value() as int;
                let n = values.len() as int;
                &&& r is Some <==> dens_invertible(points@, n, n, q)
                &&& r is Some ==> r->0 == lagrange_acc(points@, values@, n, n, q) && r->0 < q
            }),
    {
        let ghost q = self.modulus.value() as int;
        let n = values.len();
        let mut acc: u64 = 0;
        let mut i: usize = 0;
        proof {
            vstd::arithmetic::div_mod::lemma_small_mod(0, q as nat);
        }
        while i < n
            invariant
                self.wf(),
                q == self.modulus.value(),
                n == values.len(),
                points.len() >= n,
                forall|k: int| 0 <= k < points.len() ==> #[trigger] points@[k] < q,
                forall|k: int| 0 <= k < values.len() ==> #[trigger] values@[k] < q,
                i <= n,
                acc < q,
                acc == lagrange_acc(points@, values@, n as int, i as int, q),
                dens_invertible(points@, n as int, i as int, q),
            decreases n - i,
        {
            let xi = points[i];
            let yi = values[i];
            let mut num: u64 = 1;
            let mut den: u64 = 1;
            let mut j: usize = 0;
            while j < n
                invariant
                    self.wf(),
                    q == self.modulus.value(),
                    n == values.len(),
                    points.len() >= n,
                    forall|k: int| 0 <= k < points.len() ==> #[trigger] points@[k] < q,
                    i < n,
                    xi == points@[i as int],
                    j <= n,
                    num < q,
                    den < q,
                    num == lagrange_num(points@, i as int, j as int, q),
                    den == lagrange_den(points@, i as int, j as int, q),
                decreases n - j,
            {
                if j != i {
                    let xj = points[j];
                    num = mul_mod(num, xj, &self.modulus);
                    let d = sub_mod(xj, xi, &self.modulus);
                    proof {
                        vstd::arithmetic::div_mod::lemma_mod_bound(xj as int - xi as int, q);
                    }
                    den = mul_mod(den, d, &self.modulus);
                }
                proof {
                    vstd::arithmetic::div_mod::lemma_mod_bound(num as int, q);
                }
                j = j + 1;
            }
            if gcd_exec(den, self.modulus.rep()) != 1 {
                return None;
            }
            let inv = inv_mod(den, &self.modulus);
            proof {
                lemma_inverse_unique(den as int, inv as int, q);
            }
            let w = mul_mod(num, inv, &self.modulus);
            proof {
                vstd::arithmetic::div_mod::lemma_mod_bound(num as int * inv as int, q);
            }
            let t = mul_mod(yi, w, &self.modulus);
            proof {
                vstd::arithmetic::div_mod::lemma_mod_bound(yi as int * w as int, q);
            }
            acc = add_mod(acc, t, &self.modulus);
            proof {
                vstd::arithmetic::div_mod::lemma_mod_bound(acc as int, q);
            }
            i = i + 1;
        }
        Some(acc)
    }

    /// The secret that the first `threshold + 1` shares give: the value at
    /// zero of the polynomial through `(k + 1, shares[k])`, reduced modulo
    /// `q`; `None` where a denominator has no inverse modulo `q`.
    pub fn reconstruct(&self, shares: &Vec<u64>) -> (r: Option<u64>)
        requires
            self.wf(),
            shares.len() >= self.threshold + 1,
            self.threshold + 1 < self.modulus.value(),
            forall|k: int| 0 <= k < shares.len() ==> #[trigger] shares@[k] < self.modulus.value(),
        ensures
            ({
                let q = self.modulus.value() as int;
                let n = self.threshold + 1;
                let xs = first_points(n);
                let ys = shares@.subrange(0, n);
                &&& r is Some <==> dens_invertible(xs, n, n, q)
                &&& r is Some ==> r->0 == lagrange_acc(xs, ys, n, n, q)
            }),
    {
        let n = self.threshold + 1;
        let mut points: Vec<u64> = Vec::new();
        let mut values: Vec<u64> = Vec::new();
        let mut k: usize = 0;
        while k < n
            invariant
                n == self.threshold + 1,
                n < self.modulus.value(),
                shares.len() >= n,
                k <= n,
                points@ == first_points(n as int).subrange(0, k as int),
                values@ == shares@.subrange(0, k as int),
            decreases n - k,
        {
            points.push((k + 1) as u64);
            values.push(shares[k]);
            k = k + 1;
            assert(points@ =~= first_points(n as int).subrange(0, k as int));
            assert(values@ =~= shares@.subrange(0, k as int));
        }
        assert(points@ =~= first_points(n as int));
        match self.lagrange_interpolation_at_zero(&points, &values) {
            Some(v) => {
                let w = reduce(v, &self.modulus);
                proof {
                    vstd::arithmetic::div_mod::lemma_small_mod(v as nat, self.modulus.value() as nat);
                }
                Some(w)
            },
            None => None,
        }
    }
}


/// The tables that `Cupcake`'s `RqPolyContext::new(n, q)` computes: the
/// roots, their scaled forms, the inverse roots and their scaled forms, as
/// numbers.
pub uninterp spec fn rq_context_tables(n: nat, q: u64) -> (Seq<u64>, Seq<u64>, Seq<u64>, Seq<u64>);

/// `n` is `2^k` for some `k`.
pub open spec fn is_power_of_two(n: nat) -> bool {
    exists|k: nat| #[trigger] vstd::arithmetic::power2::pow2(k) == n
}

/// `NUM_DIMENSION` is a power of two, so the transforms take vectors of that
/// length.
pub proof fn lemma_dimension_is_power_of_two()
    ensures
        is_power_of_two(NUM_DIMENSION as nat),
{
    vstd::arithmetic::power2::lemma2_to64();
    assert(vstd::arithmetic::power2::pow2(12) == NUM_DIMENSION as nat);
}

/// What `Cupcake`'s `lazy_ntt_u64` leaves in a vector.
pub uninterp spec fn lazy_ntt_output(a: Seq<u64>, roots: Seq<u64>, scaled_roots: Seq<u64>, q: u64) -> Seq<u64>;

/// What `Cupcake`'s `lazy_inverse_ntt_u64` leaves in a vector.
pub uninterp spec fn lazy_inverse_ntt_output(a: Seq<u64>, invroots: Seq<u64>, scaled_invroots: Seq<u64>, q: u64) -> Seq<u64>;

/// `RqPolyContext::new(n, q)` of `Cupcake`, its tables read as numbers;
/// they are the named `rq_context_tables(n, q)`. The dimension is the one
/// this library works in: `Cupcake` divides by `2n` and permutes the roots
/// by bit reversal, which it refuses for a length that is not a power of two.
#[verifier::external_body]
fn rq_tables(n: usize, m: &Modulus) -> (t: (Vec<u64>, Vec<u64>, Vec<u64>, Vec<u64>))
    requires
        n == NUM_DIMENSION,
        1 < m.value() < MODULUS_LIMIT,
    ensures
        (t.0@, t.1@, t.2@, t.3@) == rq_context_tables(n as nat, m.value()),
{
    let context = cupcake::rqpoly::RqPolyContext::new(n, &m.scalar);
    (
        context.roots.iter().map(|x| x.rep()).collect(),
        context.scaled_roots.iter().map(|x| x.rep()).collect(),
        context.invroots.iter().map(|x| x.rep()).collect(),
        context.scaled_invroots.iter().map(|x| x.rep()).collect(),
    )
}

/// `lazy_ntt_u64` of `Cupcake`, in place; the vector keeps its length and
/// holds the named `lazy_ntt_output`. The vector's length is a power of two
/// (elsewhere the halving of its stride reaches zero and the index
/// arithmetic underflows), the tables are the roots and scaled roots that
/// `RqPolyContext::new(NUM_DIMENSION, q)` computes (its butterflies stay
/// inside `u64` only with roots below `q` and their Harvey ratios), they
/// cover the vector, and its entries lie below `q`.
#[verifier::external_body]
fn lazy_ntt(a: &mut Vec<u64>, roots: &Vec<u64>, scaled_roots: &Vec<u64>, q: u64)
    requires
        is_power_of_two(old(a).len() as nat),
        roots@ == rq_context_tables(NUM_DIMENSION as nat, q).0,
        scaled_roots@ == rq_context_tables(NUM_DIMENSION as nat, q).1,
        roots.len() >= old(a).len(),
        scaled_roots.len() >= old(a).len(),
        1 < q < NTT_LIMIT,
        forall|k: int| 0 <= k < old(a).len() ==> #[trigger] old(a)@[k] < q,
    ensures
        final(a)@ == lazy_ntt_output(old(a)@, roots@, scaled_roots@, q),
        final(a)@.len() == old(a)@.len(),
{
    cupcake::polyarith::lazy_ntt::lazy_ntt_u64(a.as_mut_slice(), roots, scaled_roots, q)
}

/// `lazy_inverse_ntt_u64` of `Cupcake`, in place; the vector keeps its
/// length and holds the named `lazy_inverse_ntt_output`. As for the forward
/// transform, the length is a power of two, the tables are the inverse roots
/// and their scaled forms that `RqPolyContext::new(NUM_DIMENSION, q)`
/// computes, they cover the vector, and its entries lie below `q`.
#[verifier::external_body]
fn lazy_inverse_ntt(a: &mut Vec<u64>, invroots: &Vec<u64>, scaled_invroots: &Vec<u64>, q: u64)
    requires
        is_power_of_two(old(a).len() as nat),
        invroots@ == rq_context_tables(NUM_DIMENSION as nat, q).2,
        scaled_invroots@ == rq_context_tables(NUM_DIMENSION as nat, q).3,
        invroots.len() >= old(a).len(),
        scaled_invroots.len() >= old(a).len(),
        1 < q < NTT_LIMIT,
        forall|k: int| 0 <= k < old(a).len() ==> #[trigger] old(a)@[k] < q,
    ensures
        final(a)@ == lazy_inverse_ntt_output(old(a)@, invroots@, scaled_invroots@, q),
        final(a)@.len() == old(a)@.len(),
{
    cupcake::polyarith::lazy_ntt::lazy_inverse_ntt_u64(a.as_mut_slice(), invroots, scaled_invroots, q)
}

/// The transforms keep their moduli below `2^61`, so that the lazy
/// butterflies, which let values grow to `4q`, stay inside `u64`.
pub const NTT_LIMIT: u64 = 0x2000_0000_0000_0000;

/// Number-theoretic transforms of length `NUM_DIMENSION` modulo a prime.
pub struct NTTContext {
    pub modulus: Modulus,
    pub roots_u64: Vec<u64>,
    pub scaledroots_u64: Vec<u64>,
    pub invroots_u64: Vec<u64>,
    pub scaled_invroots_u64: Vec<u64>,
    pub ninv: u64,
}

impl NTTContext {
    /// The tables are `Cupcake`'s for the modulus, and `ninv` inverts
    /// `NUM_DIMENSION`.
    pub open spec fn wf(&self) -> bool {
        let q = self.modulus.value();
        &&& 1 < q < NTT_LIMIT
        &&& (self.roots_u64@, self.scaledroots_u64@, self.invroots_u64@, self.scaled_invroots_u64@)
            == rq_context_tables(NUM_DIMENSION as nat, q)
        &&& self.ninv < q
        &&& ((NUM_DIMENSION as int % q as int) * self.ninv as int) % (q as int) == 1
    }

    /// The context for `prime`; `None` where `NUM_DIMENSION` has no inverse
    /// modulo `prime`.
    pub fn init(prime: u64) -> (c: Option<Self>)
        requires
            1 < prime < NTT_LIMIT,
        ensures
            c is Some <==> gcd((NUM_DIMENSION as int % prime as int) as nat, prime as nat) == 1,
            c is Some ==> c->0.wf() && c->0.modulus.value() == prime,
    {
        let modulus = new_modulus(prime);
        let (roots_u64, scaledroots_u64, invroots_u64, scaled_invroots_u64) = rq_tables(NUM_DIMENSION, &modulus);
        let n_red = reduce(NUM_DIMENSION as u64, &modulus);
        if gcd_exec(n_red, prime) != 1 {
            return None;
        }
        let ninv = inv_mod(n_red, &modulus);
        Some(NTTContext { modulus, roots_u64, scaledroots_u64, invroots_u64, scaled_invroots_u64, ninv })
    }

    /// Transforms `a`, whose length is a power of two, in place and reduces
    /// every entry modulo `q`.
    pub fn lazy_ntt_inplace(&self, a: &mut Vec<u64>)
        requires
            self.wf(),
            is_power_of_two(old(a).len() as nat),
            self.roots_u64.len() >= old(a).len(),
            self.scaledroots_u64.len() >= old(a).len(),
            forall|k: int| 0 <= k < old(a).len() ==> #[trigger] old(a)@[k] < self.modulus.value(),
        ensures
            final(a)@.len() == old(a)@.len(),
            forall|k: int|
                0 <= k < final(a)@.len() ==> #[trigger] final(a)@[k] == lazy_ntt_output(
                    old(a)@,
                    self.roots_u64@,
                    self.scaledroots_u64@,
                    self.modulus.value(),
                )[k] % self.modulus.value(),
    {
        let q = self.modulus.rep();
        lazy_ntt(a, &self.roots_u64, &self.scaledroots_u64, q);
        let ghost out = a@;
        let mut i: usize = 0;
        while i < a.len()
            invariant
                self.wf(),
                q == self.modulus.value(),
                a@.len() == out.len(),
                i <= a.len(),
                forall|k: int| 0 <= k < i ==> #[trigger] a@[k] == out[k] % q,
                forall|k: int| i <= k < a.len() ==> #[trigger] a@[k] == out[k],
            decreases a.len() - i,
        {
            let x = reduce(a[i], &self.modulus);
            a[i] = x;
            i = i + 1;
        }
    }

    /// Inverse-transforms `a`, whose length is a power of two, in place and
    /// scales every entry by `NUM_DIMENSION^-1` modulo `q`.
    pub fn lazy_inverse_ntt_inplace(&self, a: &mut Vec<u64>)
        requires
            self.wf(),
            is_power_of_two(old(a).len() as nat),
            self.invroots_u64.len() >= old(a).len(),
            self.scaled_invroots_u64.len() >= old(a).len(),
            forall|k: int| 0 <= k < old(a).len() ==> #[trigger] old(a)@[k] < self.modulus.value(),
        ensures
            final(a)@.len() == old(a)@.len(),
            forall|k: int|
                0 <= k < final(a)@.len() ==> #[trigger] final(a)@[k] == (self.ninv as int * (lazy_inverse_ntt_output(
                    old(a)@,
                    self.invroots_u64@,
                    self.scaled_invroots_u64@,
                    self.modulus.value(),
                )[k] % self.modulus.value()) as int) % (self.modulus.value() as int),
    {
        let q = self.modulus.rep();
        lazy_inverse_ntt(a, &self.invroots_u64, &self.scaled_invroots_u64, q);
        let ghost out = a@;
        let mut i: usize = 0;
        while i < a.len()
            invariant
                self.wf(),
                q == self.modulus.value(),
                a@.len() == out.len(),
                i <= a.len(),
                forall|k: int| 0 <= k < i ==> #[trigger] a@[k] == (self.ninv as int * (out[k] % q) as int) % (q as int),
                forall|k: int| i <= k < a.len() ==> #[trigger] a@[k] == out[k],
            decreases a.len() - i,
        {
            let x = reduce(a[i], &self.modulus);
            let y = mul_mod(self.ninv, x, &self.modulus);
            a[i] = y;
            i = i + 1;
        }
    }

    /// The entrywise product modulo `q` of `a` and `b`, over the shorter
    /// length.
    pub fn coeff_mul_mod(&self, a: &Vec<u64>, b: &Vec<u64>) -> (c: Vec<u64>)
        requires
            self.wf(),
            forall|k: int| 0 <= k < a.len() ==> #[trigger] a@[k] < self.modulus.value(),
            forall|k: int| 0 <= k < b.len() ==> #[trigger] b@[k] < self.modulus.value(),
        ensures
            c.len() == (if a.len() < b.len() { a.len() } else { b.len() }),
            forall|k: int|
                0 <= k < c.len() ==> #[trigger] c@[k] == (a@[k] as int * b@[k] as int) % (self.modulus.value() as int),
    {
        let n = if a.len() < b.len() { a.len() } else { b.len() };
        let mut c: Vec<u64> = Vec::new();
        let mut i: usize = 0;
        while i < n
            invariant
                self.wf(),
                n == (if a.len() < b.len() { a.len() } else { b.len() }),
                forall|k: int| 0 <= k < a.len() ==> #[trigger] a@[k] < self.modulus.value(),
                forall|k: int| 0 <= k < b.len() ==> #[trigger] b@[k] < self.modulus.value(),
                i <= n,
                c.len() == i,
                forall|k: int| 0 <= k < i ==> #[trigger] c@[k] == (a@[k] as int * b@[k] as int) % (self.modulus.value() as int),
            decreases n - i,
        {
            c.push(mul_mod(a[i], b[i], &self.modulus));
            i = i + 1;
        }
        c
    }
}

} // verus!
