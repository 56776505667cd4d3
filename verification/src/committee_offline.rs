//! The committee's offline phase: Shamir shares of each secret modulo the
//! three ciphertext primes, and the byte framing of the shares that members
//! exchange (every share is sent as its 5 low little-endian bytes).
use vstd::prelude::*;
use crate::rlwe::context::{self as ctx, Modulus, NTTContext, MODULUS_LIMIT};
use crate::rlwe::lagrange::{is_prime, lemma_dens_invertible_mod_prime};
use crate::rlwe::NUM_DIMENSION;

verus! {

/// The `k`-th little-endian byte of `x`.
pub open spec fn u64_le_byte(x: u64, k: int) -> u8 {
    (x >> ((8 * k) as u64)) as u8
}

/// The 5 low little-endian bytes of every share of `s`, in order: byte `t` of
/// the stream is byte `t % 5` of `s[t / 5]`.
pub open spec fn share_stream(s: Seq<u64>) -> Seq<u8> {
    Seq::new(5 * s.len(), |t: int| u64_le_byte(s[t / 5], t % 5))
}

/// The value of 5 little-endian bytes of `buf` starting at `x`.
pub open spec fn u40_from_le(buf: Seq<u8>, x: int) -> u64 {
    buf[x] as u64 | (buf[x + 1] as u64) << 8u64 | (buf[x + 2] as u64) << 16u64 | (
    buf[x + 3] as u64) << 24u64 | (buf[x + 4] as u64) << 32u64
}

/// The shares read from `buf[start..end)`: one share per 5-byte step, the
/// last step possibly reaching past `end`.
pub open spec fn shares_from(buf: Seq<u8>, start: int, end: int) -> Seq<u64> {
    Seq::new(
        (if end <= start { 0 } else { (end - start + 4) / 5 }) as nat,
        |i: int| u40_from_le(buf, start + 5 * i),
    )
}

/// The 40 low bits of `x`, what its 5 low little-endian bytes hold.
pub open spec fn low40(x: u64) -> u64 {
    x & 0xff_ffff_ffffu64
}

/// The 40 low bits of every share.
pub open spec fn low40s(s: Seq<u64>) -> Seq<u64> {
    Seq::new(s.len(), |i: int| low40(s[i]))
}

/// Reading back the 5 low bytes of a share gives its 40 low bits, the share
/// itself where it lies below `2^40`.
pub proof fn lemma_u40_roundtrip(x: u64)
    ensures
        ((x >> 0u64) as u8 as u64 | ((x >> 8u64) as u8 as u64) << 8u64 | ((x >> 16u64) as u8 as u64)
            << 16u64 | ((x >> 24u64) as u8 as u64) << 24u64 | ((x >> 32u64) as u8 as u64) << 32u64)
            == low40(x),
        x < 0x100_0000_0000 ==> low40(x) == x,
{
    assert(((x >> 0u64) as u8 as u64 | ((x >> 8u64) as u8 as u64) << 8u64 | ((x >> 16u64) as u8 as u64)
        << 16u64 | ((x >> 24u64) as u8 as u64) << 24u64 | ((x >> 32u64) as u8 as u64) << 32u64)
        == x & 0xff_ffff_ffffu64) by (bit_vector);
    assert(x < 0x100_0000_0000 ==> x & 0xff_ffff_ffffu64 == x) by (bit_vector);
}

/// The 5-byte word at `5 * i` of a share stream is the 40 low bits of the
/// `i`-th share.
pub proof fn lemma_share_stream_word(s: Seq<u64>, i: int)
    requires
        0 <= i < s.len(),
    ensures
        u40_from_le(share_stream(s), 5 * i) == low40(s[i]),
{
    let st = share_stream(s);
    assert(st[5 * i] == u64_le_byte(s[i], 0));
    assert(st[5 * i + 1] == u64_le_byte(s[i], 1));
    assert(st[5 * i + 2] == u64_le_byte(s[i], 2));
    assert(st[5 * i + 3] == u64_le_byte(s[i], 3));
    assert(st[5 * i + 4] == u64_le_byte(s[i], 4));
    lemma_u40_roundtrip(s[i]);
}

/// Shares below `2^40` are their own 40 low bits.
pub proof fn lemma_low40s_small(s: Seq<u64>)
    requires
        forall|i: int| 0 <= i < s.len() ==> #[trigger] s[i] < 0x100_0000_0000,
    ensures
        low40s(s) == s,
{
    assert forall|i: int| 0 <= i < s.len() implies #[trigger] low40s(s)[i] == s[i] by {
        lemma_u40_roundtrip(s[i]);
    }
    assert(low40s(s) =~= s);
}

/// The byte at position `t` of the share stream of the concatenation of
/// `parts`, computed without forming the concatenation.
pub fn stream_byte(parts: &Vec<&[u64]>, t: usize) -> (b: u8)
    requires
        t / 5 < total_len(parts@),
    ensures
        b == share_stream(concat_parts(parts@))[t as int],
{
    let idx = t / 5;
    let k = t % 5;
    let mut offset: usize = 0;
    let mut p: usize = 0;
    proof {
        lemma_concat_parts_len(parts@);
    }
    while p < parts.len()
        invariant
            idx == t / 5,
            k == t % 5,
            idx < total_len(parts@),
            p <= parts.len(),
            offset == total_len(parts@.subrange(0, p as int)),
            offset <= idx,
        decreases parts.len() - p,
    {
        proof {
            lemma_total_len_step(parts@, p as int);
        }
        let part = parts[p];
        if idx - offset < part.len() {
            let x = part[idx - offset];
            proof {
                lemma_concat_parts_index(parts@, p as int, idx - offset);
            }
            return (x >> (8 * (k as u64))) as u8;
        }
        offset = offset + part.len();
        p = p + 1;
    }
    proof {
        assert(parts@.subrange(0, parts.len() as int) =~= parts@);
    }
    0
}

/// The total number of shares held by `parts`.
pub open spec fn total_len(parts: Seq<&[u64]>) -> int
    decreases parts.len(),
{
    if parts.len() == 0 {
        0
    } else {
        total_len(parts.drop_last()) + parts.last()@.len()
    }
}

/// The concatenation of the shares held by `parts`.
pub open spec fn concat_parts(parts: Seq<&[u64]>) -> Seq<u64>
    decreases parts.len(),
{
    if parts.len() == 0 {
        Seq::empty()
    } else {
        concat_parts(parts.drop_last()) + parts.last()@
    }
}

/// The concatenation of `parts` holds `total_len(parts)` shares.
pub proof fn lemma_concat_parts_len_pub(parts: Seq<&[u64]>)
    ensures
        concat_parts(parts).len() == total_len(parts),
        total_len(parts) >= 0,
{
    lemma_concat_parts_len(parts);
}

proof fn lemma_concat_parts_len(parts: Seq<&[u64]>)
    ensures
        concat_parts(parts).len() == total_len(parts),
        total_len(parts) >= 0,
    decreases parts.len(),
{
    if parts.len() > 0 {
        lemma_concat_parts_len(parts.drop_last());
    }
}

proof fn lemma_total_len_step(parts: Seq<&[u64]>, p: int)
    requires
        0 <= p < parts.len(),
    ensures
        total_len(parts.subrange(0, p + 1)) == total_len(parts.subrange(0, p)) + parts[p]@.len(),
{
    assert(parts.subrange(0, p + 1).drop_last() =~= parts.subrange(0, p));
}

proof fn lemma_concat_parts_index(parts: Seq<&[u64]>, p: int, j: int)
    requires
        0 <= p < parts.len(),
        0 <= j < parts[p]@.len(),
    ensures
        concat_parts(parts)[total_len(parts.subrange(0, p)) + j] == parts[p]@[j],
        total_len(parts.subrange(0, p)) + j < concat_parts(parts).len(),
    decreases parts.len(),
{
    lemma_concat_parts_len(parts);
    lemma_concat_parts_len(parts.drop_last());
    lemma_concat_parts_len(parts.subrange(0, p));
    if p == parts.len() - 1 {
        assert(parts.drop_last() =~= parts.subrange(0, p));
    } else {
        assert(parts.drop_last().subrange(0, p) =~= parts.subrange(0, p));
        lemma_concat_parts_index(parts.drop_last(), p, j);
    }
}

/// Writes the share stream of the concatenation of `parts` into `buf`, as far
/// as `buf` reaches; the bytes past the stream keep their value.
pub fn write_share_stream(parts: &Vec<&[u64]>, buf: &mut [u8])
    ensures
        final(buf)@.len() == old(buf)@.len(),
        forall|k: int|
            0 <= k < old(buf)@.len() ==> #[trigger] final(buf)@[k] == if k < 5 * total_len(parts@) {
                share_stream(concat_parts(parts@))[k]
            } else {
                old(buf)@[k]
            },
{
    let ghost orig = buf@;
    proof {
        lemma_concat_parts_len(parts@);
    }
    let mut t: usize = 0;
    while t < buf.len() && t / 5 < total_len_exec(parts)
        invariant
            t <= buf@.len(),
            buf@.len() == orig.len(),
            t <= 5 * total_len(parts@) || t == 0,
            forall|k: int|
                0 <= k < orig.len() ==> #[trigger] buf@[k] == if k < t {
                    share_stream(concat_parts(parts@))[k]
                } else {
                    orig[k]
                },
        decreases buf@.len() - t,
    {
        let b = stream_byte(parts, t);
        buf[t] = b;
        t = t + 1;
    }
    assert forall|k: int| 0 <= k < orig.len() implies #[trigger] buf@[k] == if k < 5 * total_len(
        parts@,
    ) {
        share_stream(concat_parts(parts@))[k]
    } else {
        orig[k]
    } by {
        if t < buf@.len() {
            assert(t / 5 >= total_len(parts@));
        }
    }
}

/// The total number of shares held by `parts`.
pub fn total_len_exec(parts: &Vec<&[u64]>) -> (n: usize)
    ensures
        n == total_len(parts@) || (n == usize::MAX && total_len(parts@) >= usize::MAX),
{
    let mut n: usize = 0;
    let mut p: usize = 0;
    while p < parts.len()
        invariant
            p <= parts.len(),
            n == total_len(parts@.subrange(0, p as int)) || (n == usize::MAX && total_len(
                parts@.subrange(0, p as int),
            ) >= usize::MAX),
        decreases parts.len() - p,
    {
        proof {
            lemma_total_len_step(parts@, p as int);
            lemma_concat_parts_len(parts@.subrange(0, p as int));
        }
        if n == usize::MAX || parts[p].len() > usize::MAX - n {
            n = usize::MAX;
        } else {
            n = n + parts[p].len();
        }
        p = p + 1;
    }
    assert(parts@.subrange(0, parts.len() as int) =~= parts@);
    n
}

/// Reads one share from the 5 little-endian bytes of `buf` at `x`.
pub fn read_u40(buf: &[u8], x: usize) -> (v: u64)
    requires
        x + 4 < buf@.len(),
    ensures
        v == u40_from_le(buf@, x as int),
{
    buf[x] as u64 | ((buf[x + 1] as u64) << 8) | ((buf[x + 2] as u64) << 16) | ((buf[x + 3] as u64)
        << 24) | ((buf[x + 4] as u64) << 32)
}

/// Reads the shares at `start, start + 5, ...` below `end`.
pub fn read_shares(buf: &[u8], start: usize, end: usize) -> (s: Vec<u64>)
    requires
        start <= end,
        end <= buf@.len(),
        start + 5 * ((end - start + 4) / 5) <= buf@.len(),
    ensures
        s@ == shares_from(buf@, start as int, end as int),
{
    let blen = buf.len();
    let mut s: Vec<u64> = Vec::new();
    let mut x: usize = start;
    while x < end
        invariant
            start <= x,
            start <= end,
            end <= buf@.len(),
            start + 5 * ((end - start + 4) / 5) <= buf@.len(),
            blen == buf@.len(),
            (x - start) % 5 == 0,
            x <= end + 4,
            s.len() == (x - start) / 5,
            forall|i: int| 0 <= i < s.len() ==> #[trigger] s[i] == u40_from_le(buf@, start + 5 * i),
        decreases end + 5 - x,
    {
        assert(x + 4 < buf@.len());
        let v = read_u40(buf, x);
        s.push(v);
        x = x + 5;
    }
    assert(s@ =~= shares_from(buf@, start as int, end as int));
    s
}

/// Writes the 5 low bytes of every share of `s0` then `s1` into `buf`; the
/// bytes past that stream keep their value.
pub fn serialize_shares_into(s0: &Vec<u64>, s1: &Vec<u64>, buf: &mut [u8])
    requires
        old(buf)@.len() >= s0.len() * 5 * 2,
    ensures
        final(buf)@.len() == old(buf)@.len(),
        forall|k: int|
            0 <= k < old(buf)@.len() ==> #[trigger] final(buf)@[k] == if k < share_stream(
                s0@ + s1@,
            ).len() {
                share_stream(s0@ + s1@)[k]
            } else {
                old(buf)@[k]
            },
{
    let mut parts: Vec<&[u64]> = Vec::new();
    parts.push(s0.as_slice());
    parts.push(s1.as_slice());
    proof {
        reveal_with_fuel(concat_parts, 3);
        assert(parts@.drop_last().drop_last() =~= Seq::<&[u64]>::empty());
        assert(parts@.drop_last().last()@ == s0@);
        assert(parts@.last()@ == s1@);
        assert(concat_parts(parts@.drop_last()) =~= s0@);
        assert(concat_parts(parts@) =~= s0@ + s1@);
        lemma_concat_parts_len(parts@);
    }
    write_share_stream(&parts, buf);
}

/// Splits `buf` into halves and reads the shares of each half.
pub fn deserialize_shares(buf: &[u8]) -> (res: (Vec<u64>, Vec<u64>))
    requires
        buf@.len() / 2 + 5 * ((buf@.len() / 2 + 4) / 5) <= buf@.len(),
    ensures
        res.0@ == shares_from(buf@, 0, (buf@.len() / 2) as int),
        res.1@ == shares_from(buf@, (buf@.len() / 2) as int, (2 * (buf@.len() / 2)) as int),
{
    let nr_bytes = buf.len() / 2;
    let s0 = read_shares(buf, 0, nr_bytes);
    let s1 = read_shares(buf, nr_bytes, 2 * nr_bytes);
    (s0, s1)
}

/// Deserializing what `serialize_shares_into` wrote into a buffer of exactly
/// `10 n` bytes gives back the two share vectors of length `n`, each share
/// masked to its 40 low bits, so the vectors themselves where every share
/// lies below `2^40`.
pub proof fn lemma_shares_roundtrip(s0: Seq<u64>, s1: Seq<u64>, buf: Seq<u8>)
    requires
        s0.len() == s1.len(),
        buf.len() == 10 * s0.len(),
        forall|k: int| 0 <= k < buf.len() ==> #[trigger] buf[k] == share_stream(s0 + s1)[k],
    ensures
        shares_from(buf, 0, (buf.len() / 2) as int) == low40s(s0),
        shares_from(buf, (buf.len() / 2) as int, (2 * (buf.len() / 2)) as int) == low40s(s1),
        (forall|i: int| 0 <= i < s0.len() ==> #[trigger] s0[i] < 0x100_0000_0000)
            ==> shares_from(buf, 0, (buf.len() / 2) as int) == s0,
        (forall|i: int| 0 <= i < s1.len() ==> #[trigger] s1[i] < 0x100_0000_0000)
            ==> shares_from(buf, (buf.len() / 2) as int, (2 * (buf.len() / 2)) as int) == s1,
{
    let n = s0.len() as int;
    let s = s0 + s1;
    assert(share_stream(s).len() == buf.len());
    assert(buf =~= share_stream(s));
    assert forall|i: int| 0 <= i < n implies #[trigger] shares_from(buf, 0, (buf.len() / 2) as int)[i]
        == low40s(s0)[i] by {
        assert(s[i] == s0[i]);
        lemma_share_stream_word(s, i);
    }
    assert forall|i: int| 0 <= i < n implies #[trigger] shares_from(buf, (buf.len() / 2) as int, (2 * (buf.len() / 2)) as int)[i] == low40s(s1)[i] by {
        assert(s[n + i] == s1[i]);
        lemma_share_stream_word(s, n + i);
        assert(5 * n + 5 * i == 5 * (n + i));
    }
    assert(shares_from(buf, 0, (buf.len() / 2) as int) =~= low40s(s0));
    assert(shares_from(buf, (buf.len() / 2) as int, (2 * (buf.len() / 2)) as int) =~= low40s(s1));
    if forall|i: int| 0 <= i < s0.len() ==> #[trigger] s0[i] < 0x100_0000_0000 {
        lemma_low40s_small(s0);
    }
    if forall|i: int| 0 <= i < s1.len() ==> #[trigger] s1[i] < 0x100_0000_0000 {
        lemma_low40s_small(s1);
    }
}


/// The three shares of a triple are `a`, `b` and `c`.
pub open spec fn triple_is(t: (u64, u64, u64), a: int, b: int, c: int) -> bool {
    t.0 == a && t.1 == b && t.2 == c
}

/// A polynomial of degree `threshold` with constant term `secret` and other
/// coefficients drawn below `q`.
fn sample_polynomial(secret: u64, threshold: usize, q: &Modulus) -> (poly: Vec<u64>)
    requires
        1 < q.value() < MODULUS_LIMIT,
    ensures
        poly@.len() == threshold + 1,
        poly@[0] == secret,
        forall|k: int| 1 <= k < poly@.len() ==> #[trigger] poly@[k] < q.value(),
{
    let mut poly: Vec<u64> = Vec::new();
    poly.push(secret);
    let mut k: usize = 0;
    while k < threshold
        invariant
            1 < q.value() < MODULUS_LIMIT,
            k <= threshold,
            poly@.len() == k + 1,
            poly@[0] == secret,
            forall|t: int| 1 <= t < poly@.len() ==> #[trigger] poly@[t] < q.value(),
        decreases threshold - k,
    {
        poly.push(ctx::sample_below(q));
        k = k + 1;
    }
    poly
}

/// The value of `poly` at `x` modulo `q`: the terms `x^k * poly[k] mod q`
/// are summed without reduction, then the sum is reduced.
fn evaluate_polynomial(poly: &Vec<u64>, x: u64, q: &Modulus) -> (r: u64)
    requires
        1 < q.value() < MODULUS_LIMIT,
        x < q.value(),
        poly.len() * (q.value() as int) <= u64::MAX,
        forall|k: int| 0 <= k < poly.len() ==> #[trigger] poly@[k] < q.value(),
    ensures
        r == ctx::poly_sum(poly@, x as int, poly.len() as int) % (q.value() as int),
{
    let ghost m = q.value() as int;
    let mut s: u64 = 0;
    let mut x_pow: u64 = 1;
    let mut i: usize = 0;
    proof {
        vstd::arithmetic::div_mod::lemma_small_mod(1, m as nat);
        vstd::arithmetic::div_mod::lemma_small_mod(0, m as nat);
    }
    while i < poly.len()
        invariant
            1 < q.value() < MODULUS_LIMIT,
            m == q.value(),
            x < m,
            poly.len() * m <= u64::MAX,
            forall|k: int| 0 <= k < poly.len() ==> #[trigger] poly@[k] < m,
            i <= poly.len(),
            x_pow < m,
            x_pow == ctx::pow_mod(x as int, i as nat, m),
            s <= i * (m - 1),
            (s as int) % m == ctx::poly_sum(poly@, x as int, i as int) % m,
        decreases poly.len() - i,
    {
        let t = ctx::mul_mod(x_pow, poly[i], q);
        proof {
            ctx::lemma_pow_mod(x as int, i as nat, m);
            let pw = vstd::arithmetic::power::pow(x as int, i as nat);
            vstd::arithmetic::div_mod::lemma_mul_mod_noop_left(pw, poly@[i as int] as int, m);
            vstd::arithmetic::div_mod::lemma_mod_bound(x_pow as int * poly@[i as int] as int, m);
            vstd::arithmetic::div_mod::lemma_add_mod_noop(s as int, t as int, m);
            vstd::arithmetic::div_mod::lemma_add_mod_noop(
                ctx::poly_sum(poly@, x as int, i as int),
                pw * poly@[i as int] as int,
                m,
            );
            vstd::arithmetic::div_mod::lemma_small_mod(t as nat, m as nat);
            assert((i + 1) * (m - 1) == i * (m - 1) + (m - 1)) by (nonlinear_arith);
            assert((i + 1) * (m - 1) <= poly.len() * m) by (nonlinear_arith)
                requires
                    i + 1 <= poly.len(),
                    m > 1,
            ;
        }
        s = s + t;
        x_pow = ctx::mul_mod(x_pow, x, q);
        proof {
            vstd::arithmetic::div_mod::lemma_mod_bound(x_pow as int, m);
        }
        i = i + 1;
    }
    ctx::reduce(s, q)
}

/// `polys[t]` are three polynomials of degree `threshold` whose constant
/// terms are the components of `values[t]`, and player `j` holds their
/// values at `j + 1` modulo the three moduli, for every `t < upto`.
pub open spec fn shares_from_polys(
    ret: Seq<Vec<(u64, u64, u64)>>,
    polys: Seq<(Seq<u64>, Seq<u64>, Seq<u64>)>,
    values: Seq<(u64, u64, u64)>,
    moduli: Seq<Modulus>,
    threshold: int,
    nr_players: int,
    upto: int,
) -> bool {
    &&& polys.len() >= upto
    &&& forall|t: int|
        0 <= t < upto ==> {
            let (pa, pb, pc) = #[trigger] polys[t];
            &&& pa.len() == threshold + 1 && pb.len() == threshold + 1 && pc.len() == threshold + 1
            &&& pa[0] == values[t].0 && pb[0] == values[t].1 && pc[0] == values[t].2
            &&& forall|j: int|
                0 <= j < nr_players ==> triple_is(
                    (#[trigger] ret[j])@[t],
                    ctx::poly_sum(pa, j + 1, threshold + 1) % (moduli[0].value() as int),
                    ctx::poly_sum(pb, j + 1, threshold + 1) % (moduli[1].value() as int),
                    ctx::poly_sum(pc, j + 1, threshold + 1) % (moduli[2].value() as int),
                )
        }
}

/// Shamir shares, for `nr_players` players and threshold `threshold`, of
/// each triple of `values`: component `c` of triple `i` is shared modulo
/// `moduli[c]` with a fresh random polynomial, and player `j` gets the
/// values at `j + 1`.
pub fn shamir_share(
    nr_players: usize,
    threshold: usize,
    values: &Vec<(u64, u64, u64)>,
    moduli: &Vec<Modulus>,
) -> (ret: Vec<Vec<(u64, u64, u64)>>)
    requires
        moduli.len() == 3,
        forall|c: int| 0 <= c < 3 ==> 1 < (#[trigger] moduli@[c]).value() < MODULUS_LIMIT,
        forall|c: int| 0 <= c < 3 ==> nr_players < (#[trigger] moduli@[c]).value(),
        forall|c: int| 0 <= c < 3 ==> (threshold + 1) * (#[trigger] moduli@[c]).value() <= u64::MAX,
        forall|i: int|
            0 <= i < values.len() ==> (#[trigger] values@[i]).0 < moduli@[0].value() && values@[i].1
                < moduli@[1].value() && values@[i].2 < moduli@[2].value(),
    ensures
        ret.len() == nr_players,
        forall|j: int| 0 <= j < nr_players ==> (#[trigger] ret@[j]).len() == values.len(),
        exists|polys: Seq<(Seq<u64>, Seq<u64>, Seq<u64>)>|
            #[trigger] shares_from_polys(
                ret@,
                polys,
                values@,
                moduli@,
                threshold as int,
                nr_players as int,
                values.len() as int,
            ),
{
    let mut ret: Vec<Vec<(u64, u64, u64)>> = Vec::new();
    let mut j: usize = 0;
    while j < nr_players
        invariant
            j <= nr_players,
            ret.len() == j,
            forall|t: int| 0 <= t < j ==> (#[trigger] ret@[t])@ == values@,
        decreases nr_players - j,
    {
        let mut row: Vec<(u64, u64, u64)> = Vec::new();
        let mut k: usize = 0;
        while k < values.len()
            invariant
                k <= values.len(),
                row@ == values@.subrange(0, k as int),
            decreases values.len() - k,
        {
            row.push(values[k]);
            k = k + 1;
            assert(row@ =~= values@.subrange(0, k as int));
        }
        assert(row@ =~= values@);
        ret.push(row);
        j = j + 1;
    }
    let ghost mut polys: Seq<(Seq<u64>, Seq<u64>, Seq<u64>)> = Seq::empty();
    let mut i: usize = 0;
    while i < values.len()
        invariant
            moduli.len() == 3,
            forall|c: int| 0 <= c < 3 ==> 1 < (#[trigger] moduli@[c]).value() < MODULUS_LIMIT,
            forall|c: int| 0 <= c < 3 ==> nr_players < (#[trigger] moduli@[c]).value(),
            forall|c: int| 0 <= c < 3 ==> (threshold + 1) * (#[trigger] moduli@[c]).value() <= u64::MAX,
            forall|t: int|
                0 <= t < values.len() ==> (#[trigger] values@[t]).0 < moduli@[0].value() && values@[t].1
                    < moduli@[1].value() && values@[t].2 < moduli@[2].value(),
            i <= values.len(),
            ret.len() == nr_players,
            polys.len() == i,
            forall|jj: int| 0 <= jj < nr_players ==> (#[trigger] ret@[jj]).len() == values.len(),
            shares_from_polys(ret@, polys, values@, moduli@, threshold as int, nr_players as int, i as int),
        decreases values.len() - i,
    {
        let (v0, v1, v2) = values[i];
        let m0 = &moduli[0];
        let m1 = &moduli[1];
        let m2 = &moduli[2];
        assert(1 < m0.value() && 1 < m1.value() && 1 < m2.value());
        let pa = sample_polynomial(v0, threshold, m0);
        let pb = sample_polynomial(v1, threshold, m1);
        let pc = sample_polynomial(v2, threshold, m2);
        let ghost ret0 = ret@;
        let mut jj: usize = 0;
        while jj < nr_players
            invariant
                moduli.len() == 3,
                *m0 == moduli@[0],
                *m1 == moduli@[1],
                *m2 == moduli@[2],
                1 < m0.value() < MODULUS_LIMIT,
                1 < m1.value() < MODULUS_LIMIT,
                1 < m2.value() < MODULUS_LIMIT,
                nr_players < m0.value() && nr_players < m1.value() && nr_players < m2.value(),
                (threshold + 1) * m0.value() <= u64::MAX,
                (threshold + 1) * m1.value() <= u64::MAX,
                (threshold + 1) * m2.value() <= u64::MAX,
                pa@.len() == threshold + 1 && pb@.len() == threshold + 1 && pc@.len() == threshold + 1,
                forall|k: int| 0 <= k < pa@.len() ==> #[trigger] pa@[k] < m0.value(),
                forall|k: int| 0 <= k < pb@.len() ==> #[trigger] pb@[k] < m1.value(),
                forall|k: int| 0 <= k < pc@.len() ==> #[trigger] pc@[k] < m2.value(),
                i < values.len(),
                ret.len() == nr_players,
                ret0.len() == nr_players,
                jj <= nr_players,
                forall|t: int| 0 <= t < nr_players ==> (#[trigger] ret@[t]).len() == values.len(),
                forall|t: int| 0 <= t < nr_players ==> (#[trigger] ret0[t]).len() == values.len(),
                forall|t: int, u: int| 0 <= t < nr_players && 0 <= u < values.len() && u != i ==> #[trigger] ret@[t]@[u] == ret0[t]@[u],
                forall|t: int|
                    0 <= t < jj ==> triple_is(
                        (#[trigger] ret@[t])@[i as int],
                        ctx::poly_sum(pa@, t + 1, threshold + 1) % (m0.value() as int),
                        ctx::poly_sum(pb@, t + 1, threshold + 1) % (m1.value() as int),
                        ctx::poly_sum(pc@, t + 1, threshold + 1) % (m2.value() as int),
                    ),
            decreases nr_players - jj,
        {
            let x = (jj + 1) as u64;
            let a = evaluate_polynomial(&pa, x, m0);
            let b = evaluate_polynomial(&pb, x, m1);
            let c = evaluate_polynomial(&pc, x, m2);
            ret[jj].set(i, (a, b, c));
            jj = jj + 1;
        }
        proof {
            let np = polys.push((pa@, pb@, pc@));
            assert forall|t: int| 0 <= t < i + 1 implies {
                let (qa, qb, qc) = #[trigger] np[t];
                &&& qa.len() == threshold + 1 && qb.len() == threshold + 1 && qc.len() == threshold + 1
                &&& qa[0] == values@[t].0 && qb[0] == values@[t].1 && qc[0] == values@[t].2
                &&& forall|jx: int|
                    0 <= jx < nr_players ==> triple_is(
                        (#[trigger] ret@[jx])@[t],
                        ctx::poly_sum(qa, jx + 1, threshold + 1) % (moduli@[0].value() as int),
                        ctx::poly_sum(qb, jx + 1, threshold + 1) % (moduli@[1].value() as int),
                        ctx::poly_sum(qc, jx + 1, threshold + 1) % (moduli@[2].value() as int),
                    )
            } by {
                if t < i {
                    assert(np[t] == polys[t]);
                    let (qa, qb, qc) = polys[t];
                    assert forall|jx: int| 0 <= jx < nr_players implies triple_is(
                        (#[trigger] ret@[jx])@[t],
                        ctx::poly_sum(qa, jx + 1, threshold + 1) % (moduli@[0].value() as int),
                        ctx::poly_sum(qb, jx + 1, threshold + 1) % (moduli@[1].value() as int),
                        ctx::poly_sum(qc, jx + 1, threshold + 1) % (moduli@[2].value() as int),
                    ) by {
                        assert(ret@[jx]@[t] == ret0[jx]@[t]);
                        assert(triple_is(
                            ret0[jx]@[t],
                            ctx::poly_sum(qa, jx + 1, threshold + 1) % (moduli@[0].value() as int),
                            ctx::poly_sum(qb, jx + 1, threshold + 1) % (moduli@[1].value() as int),
                            ctx::poly_sum(qc, jx + 1, threshold + 1) % (moduli@[2].value() as int),
                        ));
                    }
                } else {
                    assert(values@[t] == (v0, v1, v2));
                }
            }
            polys = np;
        }
        i = i + 1;
    }
    assert(shares_from_polys(ret@, polys, values@, moduli@, threshold as int, nr_players as int, values.len() as int));
    ret
}

/// The two primes modulo which the random bits of the noise are shared.
pub const NOISE_MODULUS: [u64; 2] = [0x7ffffec001u64, 0x8000016001u64];

/// Primes up to `2^20` keep every product of `threshold_secret_sharing`'s
/// Lagrange interpolation, three factors below the prime, inside `i64`.
pub const TSS_PRIME_LIMIT: u64 = 0x10_0000;

/// What `threshold_secret_sharing`'s `ShamirSecretSharing { threshold,
/// share_count, prime }.reconstruct(indices, shares)` returns: the Lagrange
/// interpolation at zero, modulo `prime`, of the shares at the points
/// `indices[k] + 1`.
pub uninterp spec fn tss_reconstruct_value(
    threshold: nat,
    share_count: nat,
    prime: int,
    indices: Seq<usize>,
    shares: Seq<i64>,
) -> i64;

/// `ShamirSecretSharing::reconstruct` of `threshold_secret_sharing`; the
/// result is the named `tss_reconstruct_value`. Where the prime is a prime
/// and every Lagrange denominator of the points `indices[k] + 1` is
/// invertible, its interpolation (every product reduced with `%`, each
/// inverse from its extended gcd, all terms non-negative) is the value at
/// zero modulo the prime, `lagrange_acc`; elsewhere (a denominator that is
/// a multiple of the prime, or a prime that is not one) the value follows
/// the crate's extended gcd and is left to the name. The crate asserts as many
/// shares as indices and more than `threshold` of them, and multiplies in
/// `i64` without checks, so the inputs are kept where no step overflows: a
/// positive prime and indices up to `TSS_PRIME_LIMIT`, shares below the
/// prime.
#[verifier::external_body]
fn tss_reconstruct(threshold: usize, share_count: usize, prime: i64, indices: &Vec<usize>, shares: &Vec<i64>) -> (r: i64)
    requires
        indices.len() == shares.len(),
        shares.len() > threshold,
        0 < prime <= TSS_PRIME_LIMIT,
        forall|k: int| 0 <= k < indices.len() ==> #[trigger] indices@[k] < TSS_PRIME_LIMIT,
        forall|k: int| 0 <= k < shares.len() ==> 0 <= #[trigger] shares@[k] < prime,
    ensures
        r == tss_reconstruct_value(threshold as nat, share_count as nat, prime as int, indices@, shares@),
        is_prime(prime as int) && ctx::dens_invertible(
            tss_points(indices@),
            shares.len() as int,
            shares.len() as int,
            prime as int,
        ) ==> r as int == ctx::lagrange_acc(
            tss_points(indices@),
            tss_values(shares@),
            shares.len() as int,
            shares.len() as int,
            prime as int,
        ),
{
    let sharing = threshold_secret_sharing::shamir::ShamirSecretSharing { threshold, share_count, prime };
    sharing.reconstruct(indices, shares)
}

/// The points at which `threshold_secret_sharing` takes the shares of
/// `indices`: `indices[k] + 1`.
pub open spec fn tss_points(indices: Seq<usize>) -> Seq<u64> {
    Seq::new(indices.len(), |k: int| (indices[k] + 1) as u64)
}

/// The shares as residues.
pub open spec fn tss_values(shares: Seq<i64>) -> Seq<u64> {
    Seq::new(shares.len(), |k: int| shares[k] as u64)
}

/// The first component of the first shared value of every player, as an
/// `i64`.
pub open spec fn first_components(shares: Seq<Vec<(u64, u64, u64)>>) -> Seq<i64> {
    Seq::new(shares.len(), |j: int| shares[j]@[0].0 as i64)
}

/// The committee's check of its sharing: the first component of the first
/// value that `shamir_share` shared among ten players, reconstructed by
/// `threshold_secret_sharing` modulo `prime` from the shares of players `0`
/// to `9`.
pub fn reconstruct_first_share(shares: &Vec<Vec<(u64, u64, u64)>>, threshold: usize, prime: u64) -> (r: i64)
    requires
        shares.len() == 10,
        threshold < 10,
        0 < prime <= TSS_PRIME_LIMIT,
        forall|j: int| 0 <= j < 10 ==> (#[trigger] shares@[j]).len() >= 1 && shares@[j]@[0].0 < prime,
    ensures
        r == tss_reconstruct_value(
            threshold as nat,
            10,
            prime as int,
            Seq::new(10, |k: int| k as usize),
            first_components(shares@),
        ),
        is_prime(prime as int) && 10 < prime ==> r as int == ctx::lagrange_acc(
            ctx::first_points(10),
            Seq::new(10, |k: int| shares@[k]@[0].0),
            10,
            10,
            prime as int,
        ),
{
    let mut one_share: Vec<i64> = Vec::new();
    let mut indices: Vec<usize> = Vec::new();
    let mut j: usize = 0;
    while j < 10
        invariant
            shares.len() == 10,
            0 < prime <= TSS_PRIME_LIMIT,
            forall|t: int| 0 <= t < 10 ==> (#[trigger] shares@[t]).len() >= 1 && shares@[t]@[0].0 < prime,
            j <= 10,
            one_share@ == first_components(shares@).subrange(0, j as int),
            indices@ == Seq::new(j as nat, |k: int| k as usize),
        decreases 10 - j,
    {
        one_share.push(shares[j][0].0 as i64);
        indices.push(j);
        j = j + 1;
        assert(one_share@ =~= first_components(shares@).subrange(0, j as int));
        assert(indices@ =~= Seq::new(j as nat, |k: int| k as usize));
    }
    assert(one_share@ =~= first_components(shares@));
    proof {
        assert(tss_points(indices@) =~= ctx::first_points(10));
        assert(tss_values(one_share@) =~= Seq::new(10, |k: int| shares@[k]@[0].0));
        if is_prime(prime as int) && 10 < prime {
            lemma_dens_invertible_mod_prime(10, prime as int);
        }
    }
    tss_reconstruct(threshold, 10, prime as i64, &indices, &one_share)
}

/// Adds the shares another member sent, component by component:
/// `acc[c][i] += s_c[i]` for the first `acc[c].len()` shares.
pub fn accumulate_shares(acc: &mut Vec<Vec<u64>>, s0: &Vec<u64>, s1: &Vec<u64>)
    requires
        old(acc).len() == 2,
        old(acc)@[0].len() <= s0.len(),
        old(acc)@[1].len() <= s1.len(),
        forall|i: int| 0 <= i < old(acc)@[0].len() ==> old(acc)@[0]@[i] + #[trigger] s0@[i] <= u64::MAX,
        forall|i: int| 0 <= i < old(acc)@[1].len() ==> old(acc)@[1]@[i] + #[trigger] s1@[i] <= u64::MAX,
    ensures
        final(acc).len() == 2,
        final(acc)@[0].len() == old(acc)@[0].len(),
        final(acc)@[1].len() == old(acc)@[1].len(),
        forall|i: int| 0 <= i < final(acc)@[0].len() ==> #[trigger] final(acc)@[0]@[i] == old(acc)@[0]@[i] + s0@[i],
        forall|i: int| 0 <= i < final(acc)@[1].len() ==> #[trigger] final(acc)@[1]@[i] == old(acc)@[1]@[i] + s1@[i],
{
    let n0 = acc[0].len();
    let mut a0: Vec<u64> = Vec::new();
    let mut i: usize = 0;
    while i < n0
        invariant
            acc@ == old(acc)@,
            acc.len() == 2,
            n0 == acc@[0].len(),
            n0 <= s0.len(),
            i <= n0,
            a0.len() == i,
            forall|t: int| 0 <= t < n0 ==> acc@[0]@[t] + #[trigger] s0@[t] <= u64::MAX,
            forall|t: int| 0 <= t < i ==> #[trigger] a0@[t] == acc@[0]@[t] + s0@[t],
        decreases n0 - i,
    {
        a0.push(acc[0][i] + s0[i]);
        i = i + 1;
    }
    let n1 = acc[1].len();
    let mut a1: Vec<u64> = Vec::new();
    let mut i: usize = 0;
    while i < n1
        invariant
            acc@ == old(acc)@,
            acc.len() == 2,
            n1 == acc@[1].len(),
            n1 <= s1.len(),
            i <= n1,
            a1.len() == i,
            forall|t: int| 0 <= t < n1 ==> acc@[1]@[t] + #[trigger] s1@[t] <= u64::MAX,
            forall|t: int| 0 <= t < i ==> #[trigger] a1@[t] == acc@[1]@[t] + s1@[t],
        decreases n1 - i,
    {
        a1.push(acc[1][i] + s1[i]);
        i = i + 1;
    }
    acc.set(0, a0);
    acc.set(1, a1);
}

/// Noise residue `j` of bit `i`: the two summed bit shares, each reduced
/// modulo its sharing prime and then modulo the ciphertext prime `qq`,
/// multiplied modulo `qq`.
pub open spec fn noise_residue(b0: u64, b1: u64, q0: int, q1: int, qq: int) -> int {
    (((b0 as int % q0) % qq) * ((b1 as int % q1) % qq)) % qq
}

/// The noise residues, modulo each of the three ciphertext primes `qq`, of
/// the summed bit shares `bits` (shared modulo `q[0]` and `q[1]`).
pub fn noise_from_bits(bits: &Vec<Vec<u64>>, q: &Vec<Modulus>, qq: &Vec<Modulus>) -> (noise: Vec<Vec<u64>>)
    requires
        bits.len() == 2,
        bits@[0].len() == bits@[1].len(),
        q.len() == 2,
        qq.len() == 3,
        forall|c: int| 0 <= c < 2 ==> 1 < (#[trigger] q@[c]).value() < MODULUS_LIMIT,
        forall|c: int| 0 <= c < 3 ==> 1 < (#[trigger] qq@[c]).value() < MODULUS_LIMIT,
    ensures
        noise.len() == 3,
        forall|j: int| 0 <= j < 3 ==> (#[trigger] noise@[j]).len() == bits@[0].len(),
        forall|j: int, i: int|
            0 <= j < 3 && 0 <= i < bits@[0].len() ==> #[trigger] noise@[j]@[i] == noise_residue(
                bits@[0]@[i],
                bits@[1]@[i],
                q@[0].value() as int,
                q@[1].value() as int,
                qq@[j].value() as int,
            ),
{
    let n = bits[0].len();
    let mut noise: Vec<Vec<u64>> = Vec::new();
    let mut j: usize = 0;
    while j < 3
        invariant
            bits.len() == 2,
            bits@[0].len() == n,
            bits@[1].len() == n,
            q.len() == 2,
            qq.len() == 3,
            forall|c: int| 0 <= c < 2 ==> 1 < (#[trigger] q@[c]).value() < MODULUS_LIMIT,
            forall|c: int| 0 <= c < 3 ==> 1 < (#[trigger] qq@[c]).value() < MODULUS_LIMIT,
            j <= 3,
            noise.len() == j,
            forall|t: int| 0 <= t < j ==> (#[trigger] noise@[t]).len() == n,
            forall|t: int, i: int|
                0 <= t < j && 0 <= i < n ==> #[trigger] noise@[t]@[i] == noise_residue(
                    bits@[0]@[i],
                    bits@[1]@[i],
                    q@[0].value() as int,
                    q@[1].value() as int,
                    qq@[t].value() as int,
                ),
        decreases 3 - j,
    {
        let mut row: Vec<u64> = Vec::new();
        let mut i: usize = 0;
        let ghost m = qq@[j as int].value() as int;
        while i < n
            invariant
                bits.len() == 2,
                bits@[0].len() == n,
                bits@[1].len() == n,
                q.len() == 2,
                qq.len() == 3,
                j < 3,
                m == qq@[j as int].value(),
                forall|c: int| 0 <= c < 2 ==> 1 < (#[trigger] q@[c]).value() < MODULUS_LIMIT,
                forall|c: int| 0 <= c < 3 ==> 1 < (#[trigger] qq@[c]).value() < MODULUS_LIMIT,
                i <= n,
                row.len() == i,
                forall|t: int| 0 <= t < i ==> #[trigger] row@[t] == noise_residue(
                    bits@[0]@[t],
                    bits@[1]@[t],
                    q@[0].value() as int,
                    q@[1].value() as int,
                    m,
                ),
            decreases n - i,
        {
            assert(1 < q@[0].value() < MODULUS_LIMIT);
            assert(1 < q@[1].value() < MODULUS_LIMIT);
            assert(1 < qq@[j as int].value() < MODULUS_LIMIT);
            let r0 = ctx::reduce(bits[0][i], &q[0]);
            let r1 = ctx::reduce(bits[1][i], &q[1]);
            let a = ctx::reduce(r0, &qq[j]);
            let b = ctx::reduce(r1, &qq[j]);
            let v = ctx::mul_mod(a, b, &qq[j]);
            row.push(v);
            i = i + 1;
        }
        noise.push(row);
        j = j + 1;
    }
    noise
}

/// Transforms `v` block by block of `NUM_DIMENSION` entries, each block in
/// place as `NTTContext::lazy_ntt_inplace` does.
pub fn ntt_blocks(v: &mut Vec<u64>, c: &NTTContext)
    requires
        c.wf(),
        c.roots_u64.len() >= NUM_DIMENSION,
        c.scaledroots_u64.len() >= NUM_DIMENSION,
        old(v).len() % NUM_DIMENSION == 0,
        forall|k: int| 0 <= k < old(v).len() ==> #[trigger] old(v)@[k] < c.modulus.value(),
    ensures
        final(v).len() == old(v).len(),
        forall|b: int, i: int|
            0 <= b < (old(v).len() as int) / (NUM_DIMENSION as int) && 0 <= i < NUM_DIMENSION ==> #[trigger] final(v)@[b
                * NUM_DIMENSION + i] == ctx::lazy_ntt_output(
                old(v)@.subrange(b * NUM_DIMENSION, b * NUM_DIMENSION + NUM_DIMENSION),
                c.roots_u64@,
                c.scaledroots_u64@,
                c.modulus.value(),
            )[i] % c.modulus.value(),
{
    let ghost orig = v@;
    let len = v.len();
    let mut k: usize = 0;
    while k < len
        invariant
            c.wf(),
            c.roots_u64.len() >= NUM_DIMENSION,
            c.scaledroots_u64.len() >= NUM_DIMENSION,
            len == v.len(),
            len == orig.len(),
            len % NUM_DIMENSION == 0,
            k % NUM_DIMENSION == 0,
            k <= len,
            forall|t: int| 0 <= t < orig.len() ==> #[trigger] orig[t] < c.modulus.value(),
            forall|t: int| k <= t < len ==> #[trigger] v@[t] == orig[t],
            forall|b: int, i: int|
                0 <= b < (k as int) / (NUM_DIMENSION as int) && 0 <= i < NUM_DIMENSION ==> #[trigger] v@[b * NUM_DIMENSION + i]
                    == ctx::lazy_ntt_output(
                    orig.subrange(b * NUM_DIMENSION, b * NUM_DIMENSION + NUM_DIMENSION),
                    c.roots_u64@,
                    c.scaledroots_u64@,
                    c.modulus.value(),
                )[i] % c.modulus.value(),
        decreases len - k,
    {
        let mut block: Vec<u64> = Vec::new();
        let mut i: usize = 0;
        while i < NUM_DIMENSION
            invariant
                k + NUM_DIMENSION <= len,
                len == v.len(),
                i <= NUM_DIMENSION,
                block@ == v@.subrange(k as int, k + i),
            decreases NUM_DIMENSION - i,
        {
            block.push(v[k + i]);
            i = i + 1;
            assert(block@ =~= v@.subrange(k as int, k + i));
        }
        let ghost before = block@;
        assert(before =~= orig.subrange(k as int, k + NUM_DIMENSION));
        proof { ctx::lemma_dimension_is_power_of_two(); }
        c.lazy_ntt_inplace(&mut block);
        let ghost v0 = v@;
        let mut i: usize = 0;
        while i < NUM_DIMENSION
            invariant
                k + NUM_DIMENSION <= len,
                len == v.len(),
                block.len() == NUM_DIMENSION,
                i <= NUM_DIMENSION,
                v0.len() == len,
                forall|t: int| 0 <= t < len && (t < k || t >= k + i) ==> #[trigger] v@[t] == v0[t],
                forall|t: int| 0 <= t < i ==> #[trigger] v@[k + t] == block@[t],
            decreases NUM_DIMENSION - i,
        {
            v.set(k + i, block[i]);
            i = i + 1;
        }
        proof {
            let kb = (k as int) / (NUM_DIMENSION as int);
            assert forall|b: int, i: int|
                0 <= b < (k + NUM_DIMENSION) / (NUM_DIMENSION as int) && 0 <= i < NUM_DIMENSION implies #[trigger] v@[b
                    * NUM_DIMENSION + i] == ctx::lazy_ntt_output(
                    orig.subrange(b * NUM_DIMENSION, b * NUM_DIMENSION + NUM_DIMENSION),
                    c.roots_u64@,
                    c.scaledroots_u64@,
                    c.modulus.value(),
                )[i] % c.modulus.value() by {
                assert(k == kb * NUM_DIMENSION);
                if b < kb {
                    assert(b * NUM_DIMENSION + i < k) by (nonlinear_arith)
                        requires
                            b < kb,
                            0 <= i < NUM_DIMENSION,
                            k == kb * NUM_DIMENSION,
                    ;
                    assert(v@[b * NUM_DIMENSION + i] == v0[b * NUM_DIMENSION + i]);
                } else {
                    assert(b == kb) by (nonlinear_arith)
                        requires
                            b >= kb,
                            b < (kb * NUM_DIMENSION + NUM_DIMENSION) / (NUM_DIMENSION as int),
                    ;
                    assert(v@[k + i] == block@[i]);
                }
            }
            assert forall|t: int| k + NUM_DIMENSION <= t < len implies #[trigger] v@[t] == orig[t] by {
                assert(v@[t] == v0[t]);
            }
        }
        k = k + NUM_DIMENSION;
    }
}

} // verus!
