//! Byte framing of the three residue shares that committee members send to
//! the aggregator during decryption, and the share of `sk * ct` that each
//! member adds to its noise.
use vstd::prelude::*;
use crate::committee_offline::{self as framing, write_share_stream, read_shares};
use crate::rlwe::context::{add_mod, NTTContext};
use crate::rlwe::NUM_DIMENSION;

verus! {

/// Writes the 5 low bytes of every share of `s0`, `s1`, then `s2` into `buf`;
/// the bytes past that stream keep their value.
pub fn serialize_shares_into(s0: &[u64], s1: &[u64], s2: &[u64], buf: &mut [u8])
    requires
        old(buf)@.len() >= s0@.len() * 5 * 3,
    ensures
        final(buf)@.len() == old(buf)@.len(),
        forall|k: int|
            0 <= k < old(buf)@.len() ==> #[trigger] final(buf)@[k] == if k < framing::share_stream(
                s0@ + s1@ + s2@,
            ).len() {
                framing::share_stream(s0@ + s1@ + s2@)[k]
            } else {
                old(buf)@[k]
            },
{
    let mut parts: Vec<&[u64]> = Vec::new();
    parts.push(s0);
    parts.push(s1);
    parts.push(s2);
    proof {
        reveal_with_fuel(framing::concat_parts, 4);
        assert(parts@.drop_last().drop_last().drop_last() =~= Seq::<&[u64]>::empty());
        assert(framing::concat_parts(parts@.drop_last().drop_last()) =~= s0@);
        assert(framing::concat_parts(parts@.drop_last()) =~= s0@ + s1@);
        assert(framing::concat_parts(parts@) =~= s0@ + s1@ + s2@);
        framing::lemma_concat_parts_len_pub(parts@);
    }
    write_share_stream(&parts, buf);
}

/// Splits `buf` into thirds and reads the shares of each third.
pub fn deserialize_shares(buf: &[u8]) -> (res: (Vec<u64>, Vec<u64>, Vec<u64>))
    requires
        2 * (buf@.len() / 3) + 5 * ((buf@.len() / 3 + 4) / 5) <= buf@.len(),
    ensures
        res.0@ == framing::shares_from(buf@, 0, (buf@.len() / 3) as int),
        res.1@ == framing::shares_from(buf@, (buf@.len() / 3) as int, (2 * (buf@.len() / 3)) as int),
        res.2@ == framing::shares_from(buf@, (2 * (buf@.len() / 3)) as int, (3 * (buf@.len() / 3)) as int),
{
    let nr_bytes = buf.len() / 3;
    let s0 = read_shares(buf, 0, nr_bytes);
    let s1 = read_shares(buf, nr_bytes, 2 * nr_bytes);
    let s2 = read_shares(buf, 2 * nr_bytes, 3 * nr_bytes);
    (s0, s1, s2)
}

/// Deserializing what `serialize_shares_into` wrote into a buffer of exactly
/// `15 n` bytes gives back the three share vectors of length `n`, each share
/// masked to its 40 low bits, so the vectors themselves where every share
/// lies below `2^40`.
pub proof fn lemma_shares_roundtrip(s0: Seq<u64>, s1: Seq<u64>, s2: Seq<u64>, buf: Seq<u8>)
    requires
        s0.len() == s1.len(),
        s1.len() == s2.len(),
        buf.len() == 15 * s0.len(),
        forall|k: int| 0 <= k < buf.len() ==> #[trigger] buf[k] == framing::share_stream(s0 + s1 + s2)[k],
    ensures
        framing::shares_from(buf, 0, (buf.len() / 3) as int) == framing::low40s(s0),
        framing::shares_from(buf, (buf.len() / 3) as int, (2 * (buf.len() / 3)) as int) == framing::low40s(s1),
        framing::shares_from(buf, (2 * (buf.len() / 3)) as int, (3 * (buf.len() / 3)) as int)
            == framing::low40s(s2),
        (forall|i: int| 0 <= i < s0.len() ==> #[trigger] s0[i] < 0x100_0000_0000)
            ==> framing::shares_from(buf, 0, (buf.len() / 3) as int) == s0,
        (forall|i: int| 0 <= i < s1.len() ==> #[trigger] s1[i] < 0x100_0000_0000)
            ==> framing::shares_from(buf, (buf.len() / 3) as int, (2 * (buf.len() / 3)) as int) == s1,
        (forall|i: int| 0 <= i < s2.len() ==> #[trigger] s2[i] < 0x100_0000_0000)
            ==> framing::shares_from(buf, (2 * (buf.len() / 3)) as int, (3 * (buf.len() / 3)) as int) == s2,
{
    let n = s0.len() as int;
    let s = s0 + s1 + s2;
    assert(buf =~= framing::share_stream(s));
    assert forall|i: int| 0 <= i < n implies #[trigger] framing::shares_from(buf, 0, (buf.len() / 3) as int)[i]
        == framing::low40s(s0)[i] by {
        assert(s[i] == s0[i]);
        framing::lemma_share_stream_word(s, i);
    }
    assert forall|i: int| 0 <= i < n implies #[trigger] framing::shares_from(
        buf,
        (buf.len() / 3) as int,
        (2 * (buf.len() / 3)) as int,
    )[i] == framing::low40s(s1)[i] by {
        assert(s[n + i] == s1[i]);
        framing::lemma_share_stream_word(s, n + i);
        assert(5 * n + 5 * i == 5 * (n + i));
    }
    assert forall|i: int| 0 <= i < n implies #[trigger] framing::shares_from(
        buf,
        (2 * (buf.len() / 3)) as int,
        (3 * (buf.len() / 3)) as int,
    )[i] == framing::low40s(s2)[i] by {
        assert(s[2 * n + i] == s2[i]);
        framing::lemma_share_stream_word(s, 2 * n + i);
        assert(10 * n + 5 * i == 5 * (2 * n + i));
    }
    assert(framing::shares_from(buf, 0, (buf.len() / 3) as int) =~= framing::low40s(s0));
    assert(framing::shares_from(buf, (buf.len() / 3) as int, (2 * (buf.len() / 3)) as int) =~= framing::low40s(s1));
    assert(framing::shares_from(buf, (2 * (buf.len() / 3)) as int, (3 * (buf.len() / 3)) as int)
        =~= framing::low40s(s2));
    if forall|i: int| 0 <= i < s0.len() ==> #[trigger] s0[i] < 0x100_0000_0000 {
        framing::lemma_low40s_small(s0);
    }
    if forall|i: int| 0 <= i < s1.len() ==> #[trigger] s1[i] < 0x100_0000_0000 {
        framing::lemma_low40s_small(s1);
    }
    if forall|i: int| 0 <= i < s2.len() ==> #[trigger] s2[i] < 0x100_0000_0000 {
        framing::lemma_low40s_small(s2);
    }
}

/// Entry `i` of a member's decryption share modulo `q`: its noise plus the
/// product of its key share and the ciphertext at the same position of the
/// block.
pub open spec fn decryption_share(noise: u64, sk: Seq<u64>, ct: Seq<u64>, i: int, q: int) -> int {
    (noise as int + ((sk[i % (NUM_DIMENSION as int)] as int * ct[i % (NUM_DIMENSION as int)] as int) % q)) % q
}

/// Adds `sk[k] * ct[k]` (entrywise, modulo the `k`-th prime) to every block
/// of `NUM_DIMENSION` entries of `noise[k]`, for the three residues.
pub fn add_decryption_share(noise: &mut Vec<Vec<u64>>, sk: &Vec<Vec<u64>>, ct: &Vec<Vec<u64>>, ntt: &Vec<NTTContext>)
    requires
        old(noise).len() == 3,
        sk.len() == 3,
        ct.len() == 3,
        ntt.len() == 3,
        forall|k: int| 0 <= k < 3 ==> (#[trigger] ntt@[k]).wf(),
        forall|k: int| 0 <= k < 3 ==> (#[trigger] sk@[k]).len() >= NUM_DIMENSION && ct@[k].len() >= NUM_DIMENSION,
        forall|k: int, i: int| 0 <= k < 3 && 0 <= i < sk@[k].len() ==> #[trigger] sk@[k]@[i] < ntt@[k].modulus.value(),
        forall|k: int, i: int| 0 <= k < 3 && 0 <= i < ct@[k].len() ==> #[trigger] ct@[k]@[i] < ntt@[k].modulus.value(),
        forall|k: int| 0 <= k < 3 ==> (#[trigger] old(noise)@[k]).len() == old(noise)@[0].len(),
        old(noise)@[0].len() % NUM_DIMENSION == 0,
        forall|k: int, i: int|
            0 <= k < 3 && 0 <= i < old(noise)@[k].len() ==> #[trigger] old(noise)@[k]@[i] < ntt@[k].modulus.value(),
    ensures
        final(noise).len() == 3,
        forall|k: int| 0 <= k < 3 ==> (#[trigger] final(noise)@[k]).len() == old(noise)@[k].len(),
        forall|k: int, i: int|
            0 <= k < 3 && 0 <= i < old(noise)@[k].len() ==> #[trigger] final(noise)@[k]@[i] == decryption_share(
                old(noise)@[k]@[i],
                sk@[k]@,
                ct@[k]@,
                i,
                ntt@[k].modulus.value() as int,
            ),
{
    let ghost orig = noise@;
    let len = noise[0].len();
    let mut k: usize = 0;
    while k < 3
        invariant
            noise.len() == 3,
            orig.len() == 3,
            sk.len() == 3,
            ct.len() == 3,
            ntt.len() == 3,
            len == orig[0].len(),
            len % NUM_DIMENSION == 0,
            k <= 3,
            forall|t: int| 0 <= t < 3 ==> (#[trigger] ntt@[t]).wf(),
            forall|t: int| 0 <= t < 3 ==> (#[trigger] sk@[t]).len() >= NUM_DIMENSION && ct@[t].len() >= NUM_DIMENSION,
            forall|t: int, i: int| 0 <= t < 3 && 0 <= i < sk@[t].len() ==> #[trigger] sk@[t]@[i] < ntt@[t].modulus.value(),
            forall|t: int, i: int| 0 <= t < 3 && 0 <= i < ct@[t].len() ==> #[trigger] ct@[t]@[i] < ntt@[t].modulus.value(),
            forall|t: int| 0 <= t < 3 ==> (#[trigger] orig[t]).len() == len,
            forall|t: int, i: int| 0 <= t < 3 && 0 <= i < len ==> #[trigger] orig[t]@[i] < ntt@[t].modulus.value(),
            forall|t: int| 0 <= t < 3 ==> (#[trigger] noise@[t]).len() == len,
            forall|t: int| k <= t < 3 ==> #[trigger] noise@[t] == orig[t],
            forall|t: int, i: int|
                0 <= t < k && 0 <= i < len ==> #[trigger] noise@[t]@[i] == decryption_share(
                    orig[t]@[i],
                    sk@[t]@,
                    ct@[t]@,
                    i,
                    ntt@[t].modulus.value() as int,
                ),
        decreases 3 - k,
    {
        let c = &ntt[k];
        let ct_sk = c.coeff_mul_mod(&sk[k], &ct[k]);
        let mut row: Vec<u64> = Vec::new();
        let mut i: usize = 0;
        let ghost q = c.modulus.value() as int;
        while i < len
            invariant
                k < 3,
                *c == ntt@[k as int],
                c.wf(),
                q == c.modulus.value(),
                noise.len() == 3,
                noise@[k as int] == orig[k as int],
                orig[k as int].len() == len,
                len % NUM_DIMENSION == 0,
                ct_sk.len() >= NUM_DIMENSION,
                forall|t: int| 0 <= t < NUM_DIMENSION ==> #[trigger] ct_sk@[t] == (sk@[k as int]@[t] as int * ct@[k as int]@[t] as int) % q,
                forall|t: int| 0 <= t < len ==> #[trigger] orig[k as int]@[t] < q,
                i <= len,
                row.len() == i,
                forall|t: int| 0 <= t < i ==> #[trigger] row@[t] == decryption_share(orig[k as int]@[t], sk@[k as int]@, ct@[k as int]@, t, q),
            decreases len - i,
        {
            let b = i % NUM_DIMENSION;
            proof {
                vstd::arithmetic::div_mod::lemma_mod_bound(sk@[k as int]@[b as int] as int * ct@[k as int]@[b as int] as int, q);
            }
            let v = add_mod(noise[k][i], ct_sk[b], &c.modulus);
            row.push(v);
            i = i + 1;
        }
        noise.set(k, row);
        k = k + 1;
    }
}

} // verus!
