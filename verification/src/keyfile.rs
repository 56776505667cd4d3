//! The text files that carry key material: lines of space-separated decimal
//! integers, each line tagged by the name of the vector it holds.
use vstd::prelude::*;

verus! {

/// The pieces of `s` between single spaces, as `str::split(" ")` yields
/// them: empty pieces included, and one piece for an empty line.
pub open spec fn split_spaces(s: Seq<u8>) -> Seq<Seq<u8>>
    decreases s.len(),
{
    if s.len() == 0 {
        seq![Seq::<u8>::empty()]
    } else {
        let p = split_spaces(s.drop_last());
        if s.last() == 32u8 {
            p.push(Seq::<u8>::empty())
        } else {
            p.update(p.len() - 1, p.last().push(s.last()))
        }
    }
}

proof fn lemma_split_nonempty(s: Seq<u8>)
    ensures
        split_spaces(s).len() >= 1,
    decreases s.len(),
{
    if s.len() > 0 {
        lemma_split_nonempty(s.drop_last());
    }
}

/// Splits `s` at every space.
pub fn split_spaces_exec(s: &[u8]) -> (r: Vec<Vec<u8>>)
    ensures
        r@.map_values(|v: Vec<u8>| v@) == split_spaces(s@),
{
    let mut pieces: Vec<Vec<u8>> = Vec::new();
    let mut cur: Vec<u8> = Vec::new();
    let mut i: usize = 0;
    assert(s@.subrange(0, 0) =~= Seq::<u8>::empty());
    assert(pieces@.map_values(|v: Vec<u8>| v@).push(cur@) =~= seq![Seq::<u8>::empty()]);
    while i < s.len()
        invariant
            i <= s.len(),
            pieces@.map_values(|v: Vec<u8>| v@).push(cur@) == split_spaces(s@.subrange(0, i as int)),
        decreases s.len() - i,
    {
        let ghost before = pieces@.map_values(|v: Vec<u8>| v@);
        let ghost cur0 = cur@;
        assert(s@.subrange(0, i + 1).drop_last() =~= s@.subrange(0, i as int));
        proof {
            lemma_split_nonempty(s@.subrange(0, i as int));
        }
        let b = s[i];
        if b == 32u8 {
            let done = cur;
            pieces.push(done);
            cur = Vec::new();
            assert(pieces@.map_values(|v: Vec<u8>| v@) =~= before.push(cur0));
            assert(pieces@.map_values(|v: Vec<u8>| v@).push(cur@) =~= before.push(cur0).push(Seq::<u8>::empty()));
        } else {
            cur.push(b);
            assert(pieces@.map_values(|v: Vec<u8>| v@) =~= before);
            assert(pieces@.map_values(|v: Vec<u8>| v@).push(cur@) =~= before.push(cur0).update(
                before.len() as int,
                cur0.push(b),
            ));
        }
        i = i + 1;
    }
    assert(s@.subrange(0, s.len() as int) =~= s@);
    let ghost before = pieces@.map_values(|v: Vec<u8>| v@);
    let ghost last = cur@;
    pieces.push(cur);
    assert(pieces@.map_values(|v: Vec<u8>| v@) =~= before.push(last));
    pieces
}

/// `pat` occurs in `s` at position `i`.
pub open spec fn occurs_at(s: Seq<u8>, pat: Seq<u8>, i: int) -> bool {
    0 <= i && i + pat.len() <= s.len() && s.subrange(i, i + pat.len()) == pat
}

/// `pat` occurs in `s`, as `str::contains` finds it.
pub open spec fn contains(s: Seq<u8>, pat: Seq<u8>) -> bool {
    exists|i: int| occurs_at(s, pat, i)
}

/// Decides `contains`.
pub fn contains_exec(s: &[u8], pat: &[u8]) -> (b: bool)
    ensures
        b == contains(s@, pat@),
{
    if pat.len() > s.len() {
        return false;
    }
    let mut i: usize = 0;
    while i <= s.len() - pat.len()
        invariant
            pat.len() <= s.len(),
            i <= s.len() - pat.len() + 1,
            forall|t: int| 0 <= t < i ==> !occurs_at(s@, pat@, t),
        decreases s.len() - i,
    {
        let mut j: usize = 0;
        let mut same = true;
        while j < pat.len()
            invariant
                i + pat.len() <= s.len(),
                j <= pat.len(),
                same == forall|u: int| 0 <= u < j ==> s@[i + u] == pat@[u],
            decreases pat.len() - j,
        {
            if s[i + j] != pat[j] {
                same = false;
            }
            j = j + 1;
        }
        if same {
            assert(s@.subrange(i as int, i + pat.len()) =~= pat@);
            assert(occurs_at(s@, pat@, i as int));
            return true;
        }
        assert(!occurs_at(s@, pat@, i as int)) by {
            if occurs_at(s@, pat@, i as int) {
                let u = choose|u: int| 0 <= u < pat.len() && s@[i + u] != pat@[u];
                assert(s@.subrange(i as int, i + pat.len())[u] == s@[i + u]);
            }
        }
        i = i + 1;
    }
    assert forall|t: int| !occurs_at(s@, pat@, t) by {
        if 0 <= t < i {
        }
    }
    false
}

/// An ASCII decimal digit.
pub open spec fn is_digit(b: u8) -> bool {
    48 <= b <= 57
}

/// Every byte of `d` is a decimal digit.
pub open spec fn all_digits(d: Seq<u8>) -> bool {
    forall|k: int| 0 <= k < d.len() ==> is_digit(#[trigger] d[k])
}

/// The value of a string of decimal digits.
pub open spec fn digits_value(d: Seq<u8>) -> int
    decreases d.len(),
{
    if d.len() == 0 {
        0
    } else {
        digits_value(d.drop_last()) * 10 + (d.last() - 48)
    }
}

/// What `i128::from_str_radix(s, 10)` gives: an optional sign, then at least
/// one decimal digit and nothing else, with the value inside `i128`.
pub open spec fn decimal_i128(s: Seq<u8>) -> Option<i128> {
    let neg = s.len() > 0 && s[0] == 45u8;
    let d = if s.len() > 0 && (s[0] == 45u8 || s[0] == 43u8) { s.drop_first() } else { s };
    let v = if neg { -digits_value(d) } else { digits_value(d) };
    if d.len() == 0 || !all_digits(d) {
        None
    } else if i128::MIN <= v <= i128::MAX {
        Some(v as i128)
    } else {
        None
    }
}

proof fn lemma_digits_grow(d: Seq<u8>, k: int)
    requires
        0 <= k <= d.len(),
        forall|t: int| 0 <= t < d.len() ==> is_digit(#[trigger] d[t]),
    ensures
        digits_value(d) >= digits_value(d.subrange(0, k)),
        digits_value(d.subrange(0, k)) >= 0,
    decreases d.len() - k,
{
    if k < d.len() {
        lemma_digits_grow(d, k + 1);
        assert(d.subrange(0, k + 1).drop_last() =~= d.subrange(0, k));
        lemma_digits_nonneg(d.subrange(0, k));
    } else {
        assert(d.subrange(0, k) =~= d);
        lemma_digits_nonneg(d);
    }
}

proof fn lemma_digits_nonneg(d: Seq<u8>)
    requires
        forall|t: int| 0 <= t < d.len() ==> is_digit(#[trigger] d[t]),
    ensures
        digits_value(d) >= 0,
    decreases d.len(),
{
    if d.len() > 0 {
        lemma_digits_nonneg(d.drop_last());
    }
}

/// Reads a decimal `i128` as `i128::from_str_radix(s, 10)` does.
pub fn parse_i128(s: &[u8]) -> (r: Option<i128>)
    ensures
        r == decimal_i128(s@),
{
    let n = s.len();
    let neg = n > 0 && s[0] == 45u8;
    let start: usize = if n > 0 && (s[0] == 45u8 || s[0] == 43u8) { 1 } else { 0 };
    let ghost d = if n > 0 && (s@[0] == 45u8 || s@[0] == 43u8) { s@.drop_first() } else { s@ };
    assert(d =~= s@.subrange(start as int, n as int));
    if start >= n {
        return None;
    }
    let lim: u128 = 0x1000_0000_0000_0000_0000_0000_0000_0000;
    let mut mag: u128 = 0;
    let mut i: usize = start;
    while i < n
        invariant
            n == s.len(),
            start <= i <= n,
            start >= 0,
            d == s@.subrange(start as int, n as int),
            d == (if s@.len() > 0 && (s@[0] == 45u8 || s@[0] == 43u8) { s@.drop_first() } else { s@ }),
            forall|t: int| 0 <= t < i - start ==> is_digit(#[trigger] d[t]),
            mag as int == digits_value(d.subrange(0, i - start)),
            mag <= 0x8000_0000_0000_0000_0000_0000_0000_0000 * 16,
            lim == 0x1000_0000_0000_0000_0000_0000_0000_0000,
        decreases n - i,
    {
        let b = s[i];
        assert(d[i - start] == b);
        if b < 48u8 || b > 57u8 {
            assert(!is_digit(d[i - start]));
            assert(!all_digits(d));
            return None;
        }
        assert(d.subrange(0, i - start + 1).drop_last() =~= d.subrange(0, i - start));
        if mag > lim {
            // the value already exceeds what an i128 can hold
            proof {
                if all_digits(d) {
                    lemma_digits_grow(d, i - start + 1);
                }
            }
            return None;
        }
        mag = mag * 10 + (b - 48u8) as u128;
        i = i + 1;
    }
    assert(d.subrange(0, n - start) =~= d);
    let top: u128 = 0x8000_0000_0000_0000_0000_0000_0000_0000;
    if neg {
        if mag > top {
            None
        } else if mag == top {
            Some(i128::MIN)
        } else {
            Some(-(mag as i128))
        }
    } else {
        if mag >= top {
            None
        } else {
            Some(mag as i128)
        }
    }
}

/// The index of the first of `tags` that occurs in `line`, or `tags.len()`
/// when none does.
pub open spec fn first_tag(line: Seq<u8>, tags: Seq<Seq<u8>>) -> int
    decreases tags.len(),
{
    if tags.len() == 0 {
        0
    } else if contains(line, tags[0]) {
        0
    } else {
        1 + first_tag(line, tags.drop_first())
    }
}

/// The vectors after reading one line: the line feeds the vector of its first
/// tag, and piece `k + 1` of the line, where it is a decimal `i128`, becomes
/// entry `k`.
pub open spec fn apply_line(acc: Seq<Seq<i128>>, line: Seq<u8>, tags: Seq<Seq<u8>>) -> Seq<Seq<i128>> {
    let t = first_tag(line, tags);
    let pieces = split_spaces(line);
    if t >= tags.len() {
        acc
    } else {
        acc.update(
            t,
            Seq::new(
                acc[t].len(),
                |k: int|
                    if k + 1 < pieces.len() && decimal_i128(pieces[k + 1]) is Some {
                        decimal_i128(pieces[k + 1])->0
                    } else {
                        acc[t][k]
                    },
            ),
        )
    }
}

/// A line fits vectors of `width` entries: where it feeds a vector, no piece
/// past the first `width + 1` is a decimal `i128`.
pub open spec fn line_fits(line: Seq<u8>, tags: Seq<Seq<u8>>, width: int) -> bool {
    first_tag(line, tags) < tags.len() ==> forall|k: int|
        width + 1 <= k < split_spaces(line).len() ==> decimal_i128(#[trigger] split_spaces(line)[k]) is None
}

/// The vectors after the first `k` lines, starting from zeros.
pub open spec fn read_state(lines: Seq<Seq<u8>>, tags: Seq<Seq<u8>>, width: int, k: int) -> Seq<Seq<i128>>
    decreases k,
{
    if k <= 0 {
        Seq::new(tags.len(), |t: int| Seq::new(width as nat, |j: int| 0i128))
    } else {
        apply_line(read_state(lines, tags, width, k - 1), lines[k - 1], tags)
    }
}

proof fn lemma_first_tag_range(line: Seq<u8>, tags: Seq<Seq<u8>>)
    ensures
        0 <= first_tag(line, tags) <= tags.len(),
    decreases tags.len(),
{
    if tags.len() > 0 {
        lemma_first_tag_range(line, tags.drop_first());
    }
}

pub proof fn lemma_read_state_shape(lines: Seq<Seq<u8>>, tags: Seq<Seq<u8>>, width: int, k: int)
    requires
        width >= 0,
    ensures
        read_state(lines, tags, width, k).len() == tags.len(),
        forall|t: int| 0 <= t < tags.len() ==> (#[trigger] read_state(lines, tags, width, k)[t]).len() == width,
    decreases k,
{
    if k > 0 {
        lemma_read_state_shape(lines, tags, width, k - 1);
        lemma_first_tag_range(lines[k - 1], tags);
    }
}

/// Computes `first_tag`.
fn first_tag_exec(line: &[u8], tags: &Vec<Vec<u8>>) -> (t: usize)
    ensures
        t == first_tag(line@, tags@.map_values(|v: Vec<u8>| v@)),
{
    let ghost tv = tags@.map_values(|v: Vec<u8>| v@);
    let mut i: usize = 0;
    assert(tv.subrange(0, tv.len() as int) =~= tv);
    while i < tags.len()
        invariant
            i <= tags.len(),
            tv == tags@.map_values(|v: Vec<u8>| v@),
            first_tag(line@, tv) == i + first_tag(line@, tv.subrange(i as int, tv.len() as int)),
        decreases tags.len() - i,
    {
        let ghost sub = tv.subrange(i as int, tv.len() as int);
        assert(sub.drop_first() =~= tv.subrange(i + 1, tv.len() as int));
        assert(sub[0] == tags@[i as int]@);
        if contains_exec(line, tags[i].as_slice()) {
            return i;
        }
        i = i + 1;
    }
    assert(tv.subrange(i as int, tv.len() as int).len() == 0);
    i
}

/// Reads tagged vectors of `width` entries from `lines`: vector `t` is fed
/// by the lines whose first occurring tag is `tags[t]`, later lines
/// overwriting earlier ones, as `read_state` says. `None` where a line does
/// not fit the width.
pub fn read_tagged(lines: &Vec<Vec<u8>>, tags: &Vec<Vec<u8>>, width: usize) -> (r: Option<Vec<Vec<i128>>>)
    ensures
        ({
            let lv = lines@.map_values(|v: Vec<u8>| v@);
            let tv = tags@.map_values(|v: Vec<u8>| v@);
            &&& r is Some <==> forall|k: int| 0 <= k < lv.len() ==> line_fits(#[trigger] lv[k], tv, width as int)
            &&& r is Some ==> r->0@.map_values(|v: Vec<i128>| v@) == read_state(lv, tv, width as int, lv.len() as int)
        }),
{
    let ghost lv = lines@.map_values(|v: Vec<u8>| v@);
    let ghost tv = tags@.map_values(|v: Vec<u8>| v@);
    let mut acc: Vec<Vec<i128>> = Vec::new();
    let mut t: usize = 0;
    while t < tags.len()
        invariant
            t <= tags.len(),
            acc.len() == t,
            forall|u: int| 0 <= u < t ==> (#[trigger] acc@[u])@ == Seq::new(width as nat, |j: int| 0i128),
        decreases tags.len() - t,
    {
        let mut z: Vec<i128> = Vec::new();
        let mut j: usize = 0;
        while j < width
            invariant
                j <= width,
                z@ == Seq::new(j as nat, |q: int| 0i128),
            decreases width - j,
        {
            z.push(0i128);
            j = j + 1;
            assert(z@ =~= Seq::new(j as nat, |q: int| 0i128));
        }
        acc.push(z);
        t = t + 1;
    }
    assert(acc@.map_values(|v: Vec<i128>| v@) =~= read_state(lv, tv, width as int, 0));
    let mut k: usize = 0;
    while k < lines.len()
        invariant
            k <= lines.len(),
            lv == lines@.map_values(|v: Vec<u8>| v@),
            tv == tags@.map_values(|v: Vec<u8>| v@),
            acc@.map_values(|v: Vec<i128>| v@) == read_state(lv, tv, width as int, k as int),
            forall|q: int| 0 <= q < k ==> line_fits(#[trigger] lv[q], tv, width as int),
        decreases lines.len() - k,
    {
        proof {
            lemma_read_state_shape(lv, tv, width as int, k as int);
        }
        let line = lines[k].as_slice();
        let ghost lk = lv[k as int];
        assert(line@ == lk);
        let tag = first_tag_exec(line, tags);
        let ghost before = acc@.map_values(|v: Vec<i128>| v@);
        proof {
            lemma_first_tag_range(lk, tv);
        }
        if tag < tags.len() {
            assert(before[tag as int] == acc@[tag as int]@);
            let pieces = split_spaces_exec(line);
            let ghost pv = pieces@.map_values(|v: Vec<u8>| v@);
            let mut i: usize = 1;
            while i < pieces.len()
                invariant
                    1 <= i <= pieces.len() || pieces.len() == 0,
                    pv == pieces@.map_values(|v: Vec<u8>| v@),
                    pv == split_spaces(lk),
                    tag < tags.len(),
                    tv.len() == tags.len(),
                    lv == lines@.map_values(|v: Vec<u8>| v@),
                    tv == tags@.map_values(|v: Vec<u8>| v@),
                    k < lv.len(),
                    lk == lv[k as int],
                    tag == first_tag(lk, tv),
                    acc.len() == tags.len(),
                    before.len() == tags.len(),
                    before[tag as int].len() == width,
                    forall|u: int| 0 <= u < acc.len() && u != tag ==> (#[trigger] acc@[u])@ == before[u],
                    acc@[tag as int]@.len() == width,
                    forall|q: int|
                        0 <= q < width ==> #[trigger] acc@[tag as int]@[q] == (if q + 1 < i
                            && decimal_i128(pv[q + 1]) is Some {
                            decimal_i128(pv[q + 1])->0
                        } else {
                            before[tag as int][q]
                        }),
                    forall|q: int| width + 1 <= q < i ==> decimal_i128(#[trigger] pv[q]) is None,
                decreases pieces.len() - i,
            {
                assert(pv[i as int] == pieces@[i as int]@);
                let piece = pieces[i].as_slice();
                assert(piece@ == pv[i as int]);
                match parse_i128(piece) {
                    Some(x) => {
                        if i - 1 >= width {
                            assert(tv.len() == tags.len());
                            assert(pv.len() == pieces.len());
                            assert(decimal_i128(split_spaces(lk)[i as int]) is Some);
                            assert(!line_fits(lk, tv, width as int));
                            assert(!line_fits(lv[k as int], tv, width as int));
                            return None;
                        }
                        acc[tag].set(i - 1, x);
                    },
                    None => {},
                }
                i = i + 1;
            }
            proof {
                let after = acc@.map_values(|v: Vec<i128>| v@);
                let exp = apply_line(before, lk, tv);
                lemma_split_nonempty(lk);
                assert(after.len() == exp.len());
                assert forall|u: int| 0 <= u < after.len() implies after[u] =~= exp[u] by {
                    if u == tag {
                        assert forall|q: int| 0 <= q < width implies after[u][q] == exp[u][q] by {
                            assert(acc@[tag as int]@[q] == after[u][q]);
                        }
                    }
                }
                assert(after =~= exp);
            }
        } else {
            assert(apply_line(before, lk, tv) == before);
        }
        k = k + 1;
    }
    assert(lv.len() == lines.len());
    Some(acc)
}

} // verus!
