//! Why Shamir reconstruction gives the secret back: on the points
//! `1, ..., n` the Lagrange weights at zero are the signed binomial
//! coefficients `(-1)^i * C(n, i + 1)`, and the alternating binomial sum of a
//! polynomial of degree below `n` vanishes.
use vstd::prelude::*;
use vstd::arithmetic::power::pow;
use vstd::arithmetic::div_mod::{
    lemma_add_mod_noop, lemma_mod_bound, lemma_mul_mod_noop_left, lemma_mul_mod_noop_right, lemma_small_mod,
    lemma_fundamental_div_mod,
};
use crate::rlwe::context::{
    ShamirContext, dens_invertible, first_points, gcd, inverse, is_inverse, lagrange_acc, lagrange_den, lagrange_num, poly_sum,
};

verus! {

/// The binomial coefficient `C(n, a)`, zero outside `0 <= a <= n`.
pub open spec fn binom(n: int, a: int) -> int
    decreases n,
{
    if n < 0 || a < 0 || a > n {
        0
    } else if a == 0 || a == n {
        1
    } else {
        binom(n - 1, a - 1) + binom(n - 1, a)
    }
}

/// `(-1)^a` for `a >= 0`.
pub open spec fn sign(a: int) -> int
    decreases a,
{
    if a <= 0 { 1 } else { -sign(a - 1) }
}

/// `f(0) + ... + f(m - 1)`.
pub open spec fn ssum(f: spec_fn(int) -> int, m: int) -> int
    decreases m,
{
    if m <= 0 { 0 } else { ssum(f, m - 1) + f(m - 1) }
}

proof fn lemma_pascal(n: int, a: int)
    requires
        n >= 1,
    ensures
        binom(n, a) == binom(n - 1, a - 1) + binom(n - 1, a),
{
}

/// `a * C(n, a) == n * C(n - 1, a - 1)`.
proof fn lemma_absorb(n: int, a: int)
    requires
        n >= 1,
    ensures
        a * binom(n, a) == n * binom(n - 1, a - 1),
    decreases n,
{
    if a < 1 || a > n {
    } else if n == 1 {
    } else {
        lemma_pascal(n, a);
        lemma_absorb(n - 1, a - 1);
        lemma_absorb(n - 1, a);
        lemma_pascal(n - 1, a - 1);
        let x = binom(n - 1, a - 1);
        let y = binom(n - 1, a);
        let u = binom(n - 2, a - 2);
        let v = binom(n - 2, a - 1);
        assert(a * (x + y) == (a - 1) * x + x + a * y) by (nonlinear_arith);
        assert((n - 1) * u + x + (n - 1) * v == n * x) by (nonlinear_arith)
            requires
                x == u + v,
        ;
    }
}

/// `(k + 1) * C(k, a) == (k + 1 - a) * C(k + 1, a)`.
proof fn lemma_binom_step(k: int, a: int)
    requires
        k >= 0,
    ensures
        (k + 1) * binom(k, a) == (k + 1 - a) * binom(k + 1, a),
{
    lemma_absorb(k + 1, a);
    lemma_pascal(k + 1, a);
    let b = binom(k + 1, a);
    let l = binom(k, a - 1);
    let r = binom(k, a);
    assert((k + 1) * r == (k + 1 - a) * b) by (nonlinear_arith)
        requires
            b == l + r,
            a * b == (k + 1) * l,
    ;
}

proof fn lemma_sign_step(b: int)
    requires
        b >= 0,
    ensures
        sign(b + 1) == -sign(b),
        sign(b) == 1 || sign(b) == -1,
        sign(b) * sign(b) == 1,
    decreases b,
{
    if b > 0 {
        lemma_sign_step(b - 1);
    }
    if sign(b) == 1 {
        assert(sign(b) * sign(b) == 1 * 1);
    } else {
        assert(sign(b) * sign(b) == -1 * -1);
    }
}

proof fn lemma_ssum_ext(f: spec_fn(int) -> int, g: spec_fn(int) -> int, m: int)
    requires
        forall|a: int| 0 <= a < m ==> #[trigger] f(a) == g(a),
    ensures
        ssum(f, m) == ssum(g, m),
    decreases m,
{
    if m > 0 {
        lemma_ssum_ext(f, g, m - 1);
    }
}

proof fn lemma_ssum_add(f: spec_fn(int) -> int, g: spec_fn(int) -> int, h: spec_fn(int) -> int, m: int)
    requires
        forall|a: int| 0 <= a < m ==> #[trigger] f(a) == g(a) + h(a),
    ensures
        ssum(f, m) == ssum(g, m) + ssum(h, m),
    decreases m,
{
    if m > 0 {
        lemma_ssum_add(f, g, h, m - 1);
    }
}

proof fn lemma_ssum_scale(f: spec_fn(int) -> int, g: spec_fn(int) -> int, c: int, m: int)
    requires
        forall|a: int| 0 <= a < m ==> #[trigger] f(a) == c * g(a),
    ensures
        ssum(f, m) == c * ssum(g, m),
    decreases m,
{
    if m > 0 {
        lemma_ssum_scale(f, g, c, m - 1);
        let s = ssum(g, m - 1);
        let x = g(m - 1);
        assert(c * s + c * x == c * (s + x)) by (nonlinear_arith);
    }
}

/// `f` read one place further: `b |-> f(b + 1)`.
pub open spec fn shifted(f: spec_fn(int) -> int) -> spec_fn(int) -> int {
    |b: int| f(b + 1)
}

/// Splitting off the first term: `sum_{a <= m} f(a) == f(0) + sum_{b < m} f(b + 1)`.
proof fn lemma_ssum_shift(f: spec_fn(int) -> int, m: int)
    requires
        m >= 0,
    ensures
        ssum(f, m + 1) == f(0) + ssum(shifted(f), m),
    decreases m,
{
    if m > 0 {
        lemma_ssum_shift(f, m - 1);
        let g = shifted(f);
        assert(m - 1 + 1 == m);
        assert(ssum(f, m) == f(0) + ssum(g, m - 1));
        assert(g(m - 1) == f(m));
        assert(ssum(g, m) == ssum(g, m - 1) + g(m - 1));
        assert(ssum(f, m + 1) == ssum(f, m) + f(m));
    } else {
        assert(ssum(f, 1) == ssum(f, 0) + f(0));
        assert(ssum(shifted(f), 0) == 0);
    }
}

/// `sum_{a <= n} (-1)^a C(n, a) (a + s)^k`.
pub open spec fn alt_power_sum(n: int, k: nat, s: int) -> int {
    ssum(|a: int| sign(a) * binom(n, a) * pow(a + s, k), n + 1)
}

/// `sum_{a <= n} (-1)^a C(n, a) == 0` for `n >= 1`.
proof fn lemma_alt_binom_sum(n: int, s: int)
    requires
        n >= 1,
    ensures
        alt_power_sum(n, 0, s) == 0,
{
    reveal(pow);
    let f = |a: int| sign(a) * binom(n, a) * pow(a + s, 0);
    let g = |a: int| sign(a) * binom(n - 1, a);
    let h = |a: int| sign(a) * binom(n - 1, a - 1);
    assert forall|a: int| 0 <= a < n + 1 implies #[trigger] f(a) == g(a) + h(a) by {
        lemma_pascal(n, a);
        let x = binom(n - 1, a - 1);
        let y = binom(n - 1, a);
        let sg = sign(a);
        assert(sg * (x + y) * 1 == sg * y + sg * x) by (nonlinear_arith);
    }
    lemma_ssum_add(f, g, h, n + 1);
    assert(g(n) == 0);
    assert(ssum(g, n + 1) == ssum(g, n));
    lemma_ssum_shift(h, n);
    assert(h(0) == 0);
    let hs = shifted(h);
    assert forall|b: int| 0 <= b < n implies #[trigger] hs(b) == -1 * g(b) by {
        lemma_sign_step(b);
        let c = binom(n - 1, b);
        let sg = sign(b);
        assert(hs(b) == sign(b + 1) * c);
        assert((-sg) * c == -1 * (sg * c)) by (nonlinear_arith);
    }
    lemma_ssum_scale(hs, g, -1, n);
}

/// `U(n, k, s) == -n * U(n - 1, k - 1, s + 1) + s * U(n, k - 1, s)`.
proof fn lemma_alt_power_sum_step(n: int, k: nat, s: int)
    requires
        n >= 1,
        k >= 1,
    ensures
        alt_power_sum(n, k, s) == -n * alt_power_sum(n - 1, (k - 1) as nat, s + 1) + s * alt_power_sum(
            n,
            (k - 1) as nat,
            s,
        ),
{
    reveal(pow);
    let k1 = (k - 1) as nat;
    let f = |a: int| sign(a) * binom(n, a) * pow(a + s, k);
    let g = |a: int| sign(a) * (a * binom(n, a)) * pow(a + s, k1);
    let h = |a: int| sign(a) * binom(n, a) * pow(a + s, k1);
    let sh = |a: int| s * h(a);
    assert forall|a: int| 0 <= a < n + 1 implies #[trigger] f(a) == g(a) + sh(a) by {
        let p = pow(a + s, k1);
        assert(pow(a + s, k) == (a + s) * p);
        let z = sign(a) * binom(n, a);
        assert(z * ((a + s) * p) == sign(a) * (a * binom(n, a)) * p + s * (z * p)) by (nonlinear_arith)
            requires
                z == sign(a) * binom(n, a),
        ;
    }
    lemma_ssum_add(f, g, sh, n + 1);
    lemma_ssum_scale(sh, h, s, n + 1);
    lemma_ssum_shift(g, n);
    assert(g(0) == 0) by {
        let c = binom(n, 0);
        let p = pow(s, k1);
        assert(sign(0) * (0 * c) * p == 0) by (nonlinear_arith);
    }
    let gs = shifted(g);
    let u = |b: int| sign(b) * binom(n - 1, b) * pow(b + (s + 1), k1);
    assert forall|b: int| 0 <= b < n implies #[trigger] gs(b) == -n * u(b) by {
        lemma_sign_step(b);
        lemma_absorb(n, b + 1);
        assert((b + 1) * binom(n, b + 1) == n * binom(n - 1, b));
        assert(b + 1 + s == b + (s + 1));
        let p = pow(b + (s + 1), k1);
        let c = binom(n - 1, b);
        let sg = sign(b);
        assert(gs(b) == sign(b + 1) * ((b + 1) * binom(n, b + 1)) * pow(b + 1 + s, k1));
        assert((-sg) * (n * c) * p == -n * (sg * c * p)) by (nonlinear_arith);
    }
    lemma_ssum_scale(gs, u, -n, n);
    assert(ssum(u, n) == alt_power_sum(n - 1, k1, s + 1));
}

/// `U(n, k, s) == 0` for `k < n`: the alternating binomial sum of a power of
/// degree below `n` vanishes.
proof fn lemma_alt_power_sum_zero(n: int, k: nat, s: int)
    requires
        k < n,
    ensures
        alt_power_sum(n, k, s) == 0,
    decreases k,
{
    if k == 0 {
        lemma_alt_binom_sum(n, s);
    } else {
        lemma_alt_power_sum_step(n, k, s);
        lemma_alt_power_sum_zero(n - 1, (k - 1) as nat, s + 1);
        lemma_alt_power_sum_zero(n, (k - 1) as nat, s);
    }
}

/// The alternating binomial sum of the values at `0..=n` of a polynomial
/// with fewer than `n` coefficients vanishes.
proof fn lemma_poly_alt_sum(poly: Seq<u64>, n: int, m: int)
    requires
        0 <= m <= n,
        m <= poly.len(),
    ensures
        ssum(|a: int| sign(a) * binom(n, a) * poly_sum(poly, a, m), n + 1) == 0,
    decreases m,
{
    let f = |a: int| sign(a) * binom(n, a) * poly_sum(poly, a, m);
    if m == 0 {
        assert forall|a: int| 0 <= a < n + 1 implies #[trigger] f(a) == 0 * f(a) by {
            assert(poly_sum(poly, a, 0) == 0);
            let z = sign(a) * binom(n, a);
            assert(z * 0 == 0) by (nonlinear_arith);
        }
        lemma_ssum_scale(f, f, 0, n + 1);
    } else {
        lemma_poly_alt_sum(poly, n, m - 1);
        let g = |a: int| sign(a) * binom(n, a) * poly_sum(poly, a, m - 1);
        let h = |a: int| sign(a) * binom(n, a) * pow(a + 0, (m - 1) as nat);
        let c = poly[m - 1] as int;
        let ch = |a: int| c * h(a);
        assert forall|a: int| 0 <= a < n + 1 implies #[trigger] f(a) == g(a) + ch(a) by {
            let z = sign(a) * binom(n, a);
            let x = poly_sum(poly, a, m - 1);
            let p = pow(a, (m - 1) as nat);
            assert(poly_sum(poly, a, m) == x + p * c);
            assert(z * (x + p * c) == z * x + c * (z * p)) by (nonlinear_arith);
        }
        lemma_ssum_add(f, g, ch, n + 1);
        lemma_ssum_scale(ch, h, c, n + 1);
        lemma_alt_power_sum_zero(n, (m - 1) as nat, 0);
        let u = |a: int| sign(a) * binom(n, a) * pow(a + 0, (m - 1) as nat);
        lemma_ssum_ext(h, u, n + 1);
    }
}

/// At zero a polynomial takes its constant coefficient.
proof fn lemma_poly_at_zero(poly: Seq<u64>, m: int)
    requires
        1 <= m <= poly.len(),
    ensures
        poly_sum(poly, 0, m) == poly[0] as int,
    decreases m,
{
    reveal(pow);
    if m > 1 {
        lemma_poly_at_zero(poly, m - 1);
        let p = pow(0, (m - 1) as nat);
        assert(p == 0 * pow(0, (m - 2) as nat));
        assert(p * (poly[m - 1] as int) == 0) by (nonlinear_arith)
            requires
                p == 0,
        ;
    } else {
        assert(poly_sum(poly, 0, 0) == 0);
        assert(pow(0, 0) == 1);
    }
}

/// `sum_{b < k} (-1)^b C(n, b + 1) P(b + 1)` for the polynomial `P` of the
/// coefficients `poly`.
pub open spec fn weighted_values(poly: Seq<u64>, n: int, k: int) -> int {
    ssum(|b: int| sign(b) * binom(n, b + 1) * poly_sum(poly, b + 1, poly.len() as int), k)
}

/// The constant coefficient is the signed binomial combination of the values
/// at `1..=n`, when the polynomial has `n` coefficients.
proof fn lemma_constant_from_values(poly: Seq<u64>)
    requires
        poly.len() >= 1,
    ensures
        weighted_values(poly, poly.len() as int, poly.len() as int) == poly[0] as int,
{
    let n = poly.len() as int;
    let f = |a: int| sign(a) * binom(n, a) * poly_sum(poly, a, n);
    lemma_poly_alt_sum(poly, n, n);
    lemma_ssum_shift(f, n);
    lemma_poly_at_zero(poly, n);
    assert(f(0) == poly[0] as int) by {
        let x = poly_sum(poly, 0, n);
        assert(1 * 1 * x == x) by (nonlinear_arith);
    }
    let fs = shifted(f);
    let t = |b: int| sign(b) * binom(n, b + 1) * poly_sum(poly, b + 1, n);
    assert forall|b: int| 0 <= b < n implies #[trigger] fs(b) == -1 * t(b) by {
        lemma_sign_step(b);
        let z = binom(n, b + 1);
        let x = poly_sum(poly, b + 1, n);
        let sg = sign(b);
        assert(fs(b) == sign(b + 1) * z * x);
        assert((-sg) * z * x == -1 * (sg * z * x)) by (nonlinear_arith);
    }
    lemma_ssum_scale(fs, t, -1, n);
}

/// `k!`.
pub open spec fn fact(k: int) -> int
    decreases k,
{
    if k <= 0 { 1 } else { fact(k - 1) * k }
}

/// The product of the points `j + 1`, `j < k`, `j != i`.
pub open spec fn num_prod(i: int, k: int) -> int
    decreases k,
{
    if k <= 0 {
        1
    } else if k - 1 != i {
        num_prod(i, k - 1) * k
    } else {
        num_prod(i, k - 1)
    }
}

/// The product of the differences `(j + 1) - (i + 1)`, `j < k`, `j != i`.
pub open spec fn den_prod(i: int, k: int) -> int
    decreases k,
{
    if k <= 0 {
        1
    } else if k - 1 != i {
        den_prod(i, k - 1) * (k - 1 - i)
    } else {
        den_prod(i, k - 1)
    }
}

proof fn lemma_num_below(i: int, k: int)
    requires
        0 <= k <= i,
    ensures
        num_prod(i, k) == fact(k),
    decreases k,
{
    if k > 0 {
        lemma_num_below(i, k - 1);
    }
}

proof fn lemma_den_below(i: int, k: int)
    requires
        0 <= k <= i,
    ensures
        den_prod(i, k) * fact(i - k) == sign(k) * fact(i),
    decreases k,
{
    if k > 0 {
        lemma_den_below(i, k - 1);
        lemma_sign_step(k - 1);
        let d = den_prod(i, k - 1);
        let f1 = fact(i - k);
        assert(fact(i - (k - 1)) == f1 * (i - k + 1));
        let sg = sign(k - 1);
        let fi = fact(i);
        assert((d * (k - 1 - i)) * f1 == -sg * fi) by (nonlinear_arith)
            requires
                d * (f1 * (i - k + 1)) == sg * fi,
        ;
    }
}

/// `num_i == den_i * (-1)^i * C(k, i + 1)` over the points `1..=k`.
proof fn lemma_num_den(i: int, k: int)
    requires
        0 <= i,
        i + 1 <= k,
    ensures
        num_prod(i, k) == den_prod(i, k) * (sign(i) * binom(k, i + 1)),
    decreases k,
{
    if k == i + 1 {
        lemma_num_below(i, i);
        lemma_den_below(i, i);
        lemma_sign_step(i);
        assert(fact(0) == 1);
        let fi = fact(i);
        let sg = sign(i);
        assert(binom(i + 1, i + 1) == 1);
        assert(fi == (sg * fi) * (sg * 1)) by (nonlinear_arith)
            requires
                sg * sg == 1,
        ;
    } else {
        lemma_num_den(i, k - 1);
        lemma_binom_step(k - 1, i + 1);
        let nm = num_prod(i, k - 1);
        let d = den_prod(i, k - 1);
        let sg = sign(i);
        let b0 = binom(k - 1, i + 1);
        let b1 = binom(k, i + 1);
        assert(nm * k == (d * (k - 1 - i)) * (sg * b1)) by (nonlinear_arith)
            requires
                nm == d * (sg * b0),
                k * b0 == (k - 1 - i) * b1,
        ;
    }
}

/// The numerators that `lagrange_num` computes on the points `1..=n` are the
/// products `num_prod` reduced modulo `q`.
proof fn lemma_lagrange_num(n: int, i: int, k: int, q: int)
    requires
        1 < q,
        0 <= k <= n,
        n <= u64::MAX,
    ensures
        lagrange_num(first_points(n), i, k, q) == num_prod(i, k) % q,
    decreases k,
{
    if k == 0 {
        lemma_small_mod(1, q as nat);
    } else {
        lemma_lagrange_num(n, i, k - 1, q);
        let xs = first_points(n);
        assert(xs[k - 1] as int == k);
        if k - 1 != i {
            lemma_mul_mod_noop_left(num_prod(i, k - 1), k, q);
        }
    }
}

/// The denominators that `lagrange_den` computes on the points `1..=n` are
/// the products `den_prod` reduced modulo `q`.
proof fn lemma_lagrange_den(n: int, i: int, k: int, q: int)
    requires
        1 < q,
        0 <= i < n,
        0 <= k <= n,
        n <= u64::MAX,
    ensures
        lagrange_den(first_points(n), i, k, q) == den_prod(i, k) % q,
    decreases k,
{
    if k == 0 {
        lemma_small_mod(1, q as nat);
    } else {
        lemma_lagrange_den(n, i, k - 1, q);
        let xs = first_points(n);
        assert(xs[k - 1] as int == k);
        assert(xs[i] as int == i + 1);
        if k - 1 != i {
            vstd::arithmetic::div_mod::lemma_mul_mod_noop(den_prod(i, k - 1), k - 1 - i, q);
        }
    }
}

/// Coefficients `(s, t)` with `s * a + t * b == gcd(a, b)`, by the extended
/// Euclidean algorithm.
pub open spec fn bezout(a: nat, b: nat) -> (int, int)
    decreases a,
{
    if a == 0 {
        (0, 1)
    } else {
        let st = bezout(b % a, a);
        (st.1 - st.0 * (b / a) as int, st.0)
    }
}

proof fn lemma_bezout(a: nat, b: nat)
    ensures
        bezout(a, b).0 * a + bezout(a, b).1 * b == gcd(a, b) as int,
    decreases a,
{
    if a > 0 {
        lemma_bezout(b % a, a);
        lemma_fundamental_div_mod(b as int, a as int);
        let st = bezout(b % a, a);
        let s = st.0;
        let t = st.1;
        let d = (b / a) as int;
        let r = (b % a) as int;
        assert((t - s * d) * a + s * b == gcd(b % a, a) as int) by (nonlinear_arith)
            requires
                s * r + t * a == gcd(b % a, a) as int,
                b == a * d + r,
        ;
        assert(bezout(a, b) == (t - s * d, s));
        assert(gcd(a, b) == gcd(b % a, a));
        assert(bezout(a, b).0 * a + bezout(a, b).1 * b == gcd(a, b) as int);
    } else {
        assert(bezout(a, b) == (0int, 1int));
        assert(gcd(a, b) == b);
        assert(0 * (a as int) + 1 * (b as int) == b as int);
    }
}

/// A number coprime to `q` has an inverse modulo `q`.
proof fn lemma_inverse_exists(a: int, q: int)
    requires
        1 < q,
        0 <= a,
        gcd(a as nat, q as nat) == 1,
    ensures
        is_inverse(a, inverse(a, q), q),
{
    lemma_bezout(a as nat, q as nat);
    let st = bezout(a as nat, q as nat);
    let x = st.0 % q;
    lemma_mod_bound(st.0, q);
    lemma_mul_mod_noop_right(a, st.0, q);
    assert(a * st.0 == 1 + (-st.1) * q) by (nonlinear_arith)
        requires
            st.0 * a + st.1 * q == 1,
    ;
    vstd::arithmetic::div_mod::lemma_mod_multiples_vanish(-st.1, 1, q);
    lemma_small_mod(1, q as nat);
    assert(is_inverse(a, x, q));
}

/// On the points `1..=n`, the Lagrange weight at zero of point `i + 1` is
/// `(-1)^i * C(n, i + 1)` modulo `q`, where its denominator is invertible.
proof fn lemma_weight(n: int, i: int, q: int)
    requires
        1 < q,
        0 <= i < n,
        n <= u64::MAX,
        gcd(lagrange_den(first_points(n), i, n, q) as nat, q as nat) == 1,
    ensures
        (lagrange_num(first_points(n), i, n, q) * inverse(lagrange_den(first_points(n), i, n, q), q)) % q
            == (sign(i) * binom(n, i + 1)) % q,
{
    let xs = first_points(n);
    let nm = num_prod(i, n);
    let d = den_prod(i, n);
    let c = sign(i) * binom(n, i + 1);
    lemma_lagrange_num(n, i, n, q);
    lemma_lagrange_den(n, i, n, q);
    lemma_num_den(i, n);
    lemma_mod_bound(d, q);
    lemma_inverse_exists(d % q, q);
    let inv = inverse(d % q, q);
    assert(((d % q) * inv) % q == 1);
    lemma_mul_mod_noop_left(d, inv, q);
    lemma_mul_mod_noop_left(nm, inv, q);
    assert(nm * inv == c * (d * inv)) by (nonlinear_arith)
        requires
            nm == d * c,
    ;
    lemma_mul_mod_noop_right(c, d * inv, q);
    assert(c * 1 == c);
}

/// The accumulated sum of `lagrange_acc` over the first `k` shares is the
/// weighted sum of the polynomial's values, modulo `q`.
proof fn lemma_acc(poly: Seq<u64>, ys: Seq<u64>, q: int, k: int)
    requires
        1 < q,
        poly.len() <= u64::MAX,
        0 <= k <= poly.len(),
        ys.len() == poly.len(),
        forall|i: int| 0 <= i < poly.len() ==> #[trigger] ys[i] as int == poly_sum(poly, i + 1, poly.len() as int) % q,
        dens_invertible(first_points(poly.len() as int), poly.len() as int, poly.len() as int, q),
    ensures
        lagrange_acc(first_points(poly.len() as int), ys, poly.len() as int, k, q) == weighted_values(
            poly,
            poly.len() as int,
            k,
        ) % q,
    decreases k,
{
    let n = poly.len() as int;
    if k == 0 {
        lemma_small_mod(0, q as nat);
    } else {
        lemma_acc(poly, ys, q, k - 1);
        let i = k - 1;
        let xs = first_points(n);
        assert(gcd(lagrange_den(xs, i, n, q) as nat, q as nat) == 1);
        lemma_weight(n, i, q);
        let w = (lagrange_num(xs, i, n, q) * inverse(lagrange_den(xs, i, n, q), q)) % q;
        let c = sign(i) * binom(n, i + 1);
        let pv = poly_sum(poly, i + 1, n);
        assert(ys[i] as int == pv % q);
        vstd::arithmetic::div_mod::lemma_mul_mod_noop(pv, c, q);
        let prev = weighted_values(poly, n, k - 1);
        lemma_add_mod_noop(prev, pv * c, q);
        let t = |b: int| sign(b) * binom(n, b + 1) * poly_sum(poly, b + 1, n);
        assert(ssum(t, k) == ssum(t, k - 1) + t(k - 1));
        assert(t(k - 1) == pv * c) by {
            let sg = sign(i);
            let bn = binom(n, i + 1);
            assert(sg * bn * pv == pv * (sg * bn)) by (nonlinear_arith);
        }
        lemma_mod_bound(prev, q);
    }
}

/// Reconstructing Shamir shares gives the secret back: where the shares are
/// the values at `1..=n`, reduced modulo `q`, of a polynomial with `n`
/// coefficients whose constant coefficient is below `q`, and every Lagrange
/// denominator of the points `1..=n` is invertible modulo `q` (as it is
/// for a prime `q > n`), the Lagrange value at zero of the first `n` shares
/// is the constant coefficient.
pub proof fn lemma_reconstruct_of_shares(poly: Seq<u64>, shares: Seq<u64>, q: int)
    requires
        poly.len() >= 1,
        poly.len() < q,
        q <= u64::MAX,
        poly[0] < q,
        shares.len() >= poly.len(),
        forall|i: int|
            0 <= i < poly.len() ==> #[trigger] shares[i] as int == poly_sum(poly, i + 1, poly.len() as int) % q,
        dens_invertible(first_points(poly.len() as int), poly.len() as int, poly.len() as int, q),
    ensures
        lagrange_acc(
            first_points(poly.len() as int),
            shares.subrange(0, poly.len() as int),
            poly.len() as int,
            poly.len() as int,
            q,
        ) == poly[0] as int,
{
    let n = poly.len() as int;
    let ys = shares.subrange(0, n);
    assert forall|i: int| 0 <= i < n implies #[trigger] ys[i] as int == poly_sum(poly, i + 1, n) % q by {
        assert(ys[i] == shares[i]);
    }
    lemma_acc(poly, ys, q, n);
    lemma_constant_from_values(poly);
    lemma_small_mod(poly[0] as nat, q as nat);
}

/// `q` is a prime: above one, and no `d` strictly between one and `q`
/// divides it.
pub open spec fn is_prime(q: int) -> bool {
    &&& q > 1
    &&& forall|d: int| 1 < d < q ==> #[trigger] (q % d) != 0
}

/// `gcd(a, b)` is positive and divides both, for `b > 0`.
proof fn lemma_gcd_divides(a: nat, b: nat)
    requires
        b > 0,
    ensures
        gcd(a, b) > 0,
        a % gcd(a, b) == 0,
        b % gcd(a, b) == 0,
    decreases a,
{
    if a == 0 {
        vstd::arithmetic::div_mod::lemma_mod_self_0(b as int);
        lemma_small_mod(0, b);
    } else {
        lemma_gcd_divides(b % a, a);
        let g = gcd(b % a, a) as int;
        assert(gcd(a, b) == g);
        lemma_fundamental_div_mod(a as int, g);
        lemma_fundamental_div_mod((b % a) as int, g);
        lemma_fundamental_div_mod(b as int, a as int);
        let u = (a as int) / g;
        let v = ((b % a) as int) / g;
        let w = (b as int) / (a as int);
        assert(b as int == (u * w + v) * g) by (nonlinear_arith)
            requires
                a as int == g * u,
                (b % a) as int == g * v,
                b as int == a * w + (b % a) as int,
        ;
        vstd::arithmetic::div_mod::lemma_mod_multiples_basic(u * w + v, g);
    }
}

/// Below a prime every positive number is coprime to it.
proof fn lemma_prime_coprime(a: int, q: int)
    requires
        is_prime(q),
        0 < a < q,
    ensures
        gcd(a as nat, q as nat) == 1,
{
    lemma_gcd_divides(a as nat, q as nat);
    let g = gcd(a as nat, q as nat) as int;
    vstd::arithmetic::div_mod::lemma_mod_is_zero(a as nat, g as nat);
    if g > 1 {
        assert(q % g != 0);
    }
}

/// A prime divides a product only where it divides a factor.
proof fn lemma_prime_no_zero_divisors(a: int, b: int, q: int)
    requires
        is_prime(q),
        a % q != 0,
        b % q != 0,
    ensures
        (a * b) % q != 0,
{
    let a0 = a % q;
    lemma_mod_bound(a, q);
    lemma_prime_coprime(a0, q);
    lemma_inverse_exists(a0, q);
    let x = inverse(a0, q);
    assert((a0 * x) % q == 1);
    lemma_mul_mod_noop_left(a, x, q);
    if (a * b) % q == 0 {
        lemma_mul_mod_noop_left(a * b, x, q);
        assert((0 * x) % q == 0) by {
            lemma_small_mod(0, q as nat);
        }
        assert((a * b) * x == (a * x) * b) by (nonlinear_arith);
        lemma_mul_mod_noop_left(a * x, b, q);
        assert(1 * b == b);
        assert(false);
    }
}

/// On the points `1..=n`, every partial Lagrange denominator is a non-zero
/// residue modulo a prime `q > n`.
proof fn lemma_den_prod_nonzero(i: int, k: int, n: int, q: int)
    requires
        is_prime(q),
        0 <= i < n,
        0 <= k <= n,
        n < q,
    ensures
        den_prod(i, k) % q != 0,
    decreases k,
{
    if k == 0 {
        lemma_small_mod(1, q as nat);
    } else {
        lemma_den_prod_nonzero(i, k - 1, n, q);
        if k - 1 != i {
            let f = k - 1 - i;
            if f > 0 {
                lemma_small_mod(f as nat, q as nat);
            } else {
                vstd::arithmetic::div_mod::lemma_mod_add_multiples_vanish(f, q);
                lemma_small_mod((q + f) as nat, q as nat);
            }
            lemma_prime_no_zero_divisors(den_prod(i, k - 1), f, q);
        }
    }
}

/// For a prime `q` above `n`, every Lagrange denominator of the points
/// `1..=n` is invertible modulo `q`.
pub proof fn lemma_dens_invertible_mod_prime(n: int, q: int)
    requires
        is_prime(q),
        0 < n < q,
        q <= u64::MAX,
    ensures
        dens_invertible(first_points(n), n, n, q),
{
    assert forall|i: int| 0 <= i < n implies gcd(#[trigger] lagrange_den(first_points(n), i, n, q) as nat, q as nat) == 1 by {
        lemma_lagrange_den(n, i, n, q);
        lemma_den_prod_nonzero(i, n, n, q);
        lemma_mod_bound(den_prod(i, n), q);
        lemma_prime_coprime(den_prod(i, n) % q, q);
    }
}

/// Reconstructing Shamir shares modulo a prime gives the secret back: where
/// `q` is a prime above `n` and the shares are the values at `1..=n`,
/// reduced modulo `q`, of a polynomial with `n` coefficients whose constant
/// coefficient is below `q`, the Lagrange value at zero of the first `n`
/// shares is the constant coefficient.
pub proof fn lemma_reconstruct_of_shares_mod_prime(poly: Seq<u64>, shares: Seq<u64>, q: int)
    requires
        is_prime(q),
        poly.len() >= 1,
        poly.len() < q,
        q <= u64::MAX,
        poly[0] < q,
        shares.len() >= poly.len(),
        forall|i: int|
            0 <= i < poly.len() ==> #[trigger] shares[i] as int == poly_sum(poly, i + 1, poly.len() as int) % q,
    ensures
        lagrange_acc(
            first_points(poly.len() as int),
            shares.subrange(0, poly.len() as int),
            poly.len() as int,
            poly.len() as int,
            q,
        ) == poly[0] as int,
{
    lemma_dens_invertible_mod_prime(poly.len() as int, q);
    lemma_reconstruct_of_shares(poly, shares, q);
}

/// Sharing then reconstructing gives the secret back: for a prime `q`
/// above `threshold + 1`, whatever shares `ShamirContext::share` hands out
/// for `secret`, at least `threshold + 1` of them, every Lagrange
/// denominator of their first `threshold + 1` points is invertible (so
/// `ShamirContext::reconstruct` returns a value) and that value is the
/// secret.
pub proof fn lemma_share_then_reconstruct(ctx: ShamirContext, secret: u64, shares: Seq<u64>)
    requires
        ctx.wf(),
        is_prime(ctx.modulus.value() as int),
        ctx.threshold + 1 < ctx.modulus.value(),
        secret < ctx.modulus.value(),
        shares.len() >= ctx.threshold + 1,
        ctx.is_sharing(secret, shares),
    ensures
        ({
            let q = ctx.modulus.value() as int;
            let n = ctx.threshold + 1;
            &&& dens_invertible(first_points(n as int), n as int, n as int, q)
            &&& lagrange_acc(first_points(n as int), shares.subrange(0, n as int), n as int, n as int, q) == secret
        }),
{
    let q = ctx.modulus.value() as int;
    let n = (ctx.threshold + 1) as int;
    let poly = choose|poly: Seq<u64>| ctx.shares_poly(secret, shares, poly);
    lemma_dens_invertible_mod_prime(n, q);
    lemma_reconstruct_of_shares_mod_prime(poly, shares, q);
}

} // verus!
