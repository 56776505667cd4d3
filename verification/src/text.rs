//! Byte-level views of the `str` operations that the text parsers use:
//! splitting at a set of ASCII separators, trimming white space and reading a
//! decimal `u8`. On valid UTF-8 they agree with `str::split`, `str::trim`
//! and `u8::from_str`.
use vstd::prelude::*;
use crate::keyfile::{all_digits, digits_value, is_digit};

verus! {

/// The separators of a printed merkle proof: `[`, space, `,` and `]`.
pub open spec fn is_sep(b: u8) -> bool {
    b == 91u8 || b == 32u8 || b == 44u8 || b == 93u8
}

/// The pieces of `s` between separators, empty pieces included, as
/// `str::split` with a set of characters yields them.
pub open spec fn split_seps(s: Seq<u8>) -> Seq<Seq<u8>>
    decreases s.len(),
{
    if s.len() == 0 {
        seq![Seq::<u8>::empty()]
    } else {
        let p = split_seps(s.drop_last());
        if is_sep(s.last()) {
            p.push(Seq::<u8>::empty())
        } else {
            p.update(p.len() - 1, p.last().push(s.last()))
        }
    }
}

proof fn lemma_split_seps_nonempty(s: Seq<u8>)
    ensures
        split_seps(s).len() >= 1,
    decreases s.len(),
{
    if s.len() > 0 {
        lemma_split_seps_nonempty(s.drop_last());
    }
}

/// Splits `s` at every separator.
pub fn split_seps_exec(s: &[u8]) -> (r: Vec<Vec<u8>>)
    ensures
        r@.map_values(|v: Vec<u8>| v@) == split_seps(s@),
{
    let mut pieces: Vec<Vec<u8>> = Vec::new();
    let mut cur: Vec<u8> = Vec::new();
    let mut i: usize = 0;
    assert(s@.subrange(0, 0) =~= Seq::<u8>::empty());
    assert(pieces@.map_values(|v: Vec<u8>| v@).push(cur@) =~= seq![Seq::<u8>::empty()]);
    while i < s.len()
        invariant
            i <= s.len(),
            pieces@.map_values(|v: Vec<u8>| v@).push(cur@) == split_seps(s@.subrange(0, i as int)),
        decreases s.len() - i,
    {
        let ghost before = pieces@.map_values(|v: Vec<u8>| v@);
        let ghost cur0 = cur@;
        assert(s@.subrange(0, i + 1).drop_last() =~= s@.subrange(0, i as int));
        proof {
            lemma_split_seps_nonempty(s@.subrange(0, i as int));
        }
        let b = s[i];
        if b == 91u8 || b == 32u8 || b == 44u8 || b == 93u8 {
            let done = cur;
            pieces.push(done);
            cur = Vec::new();
            assert(pieces@.map_values(|v: Vec<u8>| v@) =~= before.push(cur0));
            assert(pieces@.map_values(|v: Vec<u8>| v@).push(cur@) =~= before.push(cur0).push(Seq::<u8>::empty()));
        } else {
            cur.push(b);
            assert(pieces@.map_values(|v: Vec<u8>| v@) =~= before);
            assert(pieces@.map_values(|v: Vec<u8>| v@).push(cur@) =~= before.push(cur0).update(
                before.len() as int,
                cur0.push(b),
            ));
        }
        i = i + 1;
    }
    assert(s@.subrange(0, s.len() as int) =~= s@);
    let ghost before = pieces@.map_values(|v: Vec<u8>| v@);
    let ghost last = cur@;
    pieces.push(cur);
    assert(pieces@.map_values(|v: Vec<u8>| v@) =~= before.push(last));
    pieces
}

/// A three-byte UTF-8 encoding of a white-space character:
/// U+1680, U+2000..=U+200A, U+2028, U+2029, U+202F, U+205F, U+3000.
pub open spec fn is_ws3(a: u8, b: u8, c: u8) -> bool {
    ||| a == 0xE1u8 && b == 0x9Au8 && c == 0x80u8
    ||| a == 0xE2u8 && b == 0x80u8 && (0x80u8 <= c <= 0x8Au8 || c == 0xA8u8 || c == 0xA9u8 || c == 0xAFu8)
    ||| a == 0xE2u8 && b == 0x81u8 && c == 0x9Fu8
    ||| a == 0xE3u8 && b == 0x80u8 && c == 0x80u8
}

/// A two-byte UTF-8 encoding of a white-space character: U+0085, U+00A0.
pub open spec fn is_ws2(a: u8, b: u8) -> bool {
    a == 0xC2u8 && (b == 0x85u8 || b == 0xA0u8)
}

/// A one-byte white-space character: tab, line feed, vertical tab, form
/// feed, carriage return and space.
pub open spec fn is_ws1(a: u8) -> bool {
    (9u8 <= a <= 13u8) || a == 32u8
}

/// The length of the white-space character that `s` starts with, or 0.
pub open spec fn front_ws_len(s: Seq<u8>) -> int {
    if s.len() >= 1 && is_ws1(s[0]) {
        1
    } else if s.len() >= 2 && is_ws2(s[0], s[1]) {
        2
    } else if s.len() >= 3 && is_ws3(s[0], s[1], s[2]) {
        3
    } else {
        0
    }
}

/// The length of the white-space character that `s` ends with, or 0.
pub open spec fn back_ws_len(s: Seq<u8>) -> int {
    let n = s.len() as int;
    if n >= 1 && is_ws1(s[n - 1]) {
        1
    } else if n >= 2 && is_ws2(s[n - 2], s[n - 1]) {
        2
    } else if n >= 3 && is_ws3(s[n - 3], s[n - 2], s[n - 1]) {
        3
    } else {
        0
    }
}

/// `s` without its leading white space.
pub open spec fn trim_front(s: Seq<u8>) -> Seq<u8>
    decreases s.len(),
{
    let k = front_ws_len(s);
    if k > 0 && k <= s.len() {
        trim_front(s.subrange(k, s.len() as int))
    } else {
        s
    }
}

/// `s` without its trailing white space.
pub open spec fn trim_back(s: Seq<u8>) -> Seq<u8>
    decreases s.len(),
{
    let k = back_ws_len(s);
    if k > 0 && k <= s.len() {
        trim_back(s.subrange(0, s.len() - k))
    } else {
        s
    }
}

/// `s` without leading and trailing white space, as `str::trim` leaves it.
pub open spec fn trimmed(s: Seq<u8>) -> Seq<u8> {
    trim_back(trim_front(s))
}

fn front_ws_len_exec(s: &[u8], i: usize, j: usize) -> (k: usize)
    requires
        i <= j <= s.len(),
    ensures
        k == front_ws_len(s@.subrange(i as int, j as int)),
{
    let ghost t = s@.subrange(i as int, j as int);
    if j - i >= 1 && ((9u8 <= s[i] && s[i] <= 13u8) || s[i] == 32u8) {
        assert(t[0] == s@[i as int]);
        1
    } else if j - i >= 2 && s[i] == 0xC2u8 && (s[i + 1] == 0x85u8 || s[i + 1] == 0xA0u8) {
        assert(t[0] == s@[i as int] && t[1] == s@[i + 1]);
        2
    } else if j - i >= 3 && ((s[i] == 0xE1u8 && s[i + 1] == 0x9Au8 && s[i + 2] == 0x80u8) || (s[i] == 0xE2u8
        && s[i + 1] == 0x80u8 && ((0x80u8 <= s[i + 2] && s[i + 2] <= 0x8Au8) || s[i + 2] == 0xA8u8 || s[i + 2]
        == 0xA9u8 || s[i + 2] == 0xAFu8)) || (s[i] == 0xE2u8 && s[i + 1] == 0x81u8 && s[i + 2] == 0x9Fu8) || (
    s[i] == 0xE3u8 && s[i + 1] == 0x80u8 && s[i + 2] == 0x80u8)) {
        assert(t[0] == s@[i as int] && t[1] == s@[i + 1] && t[2] == s@[i + 2]);
        3
    } else {
        proof {
            if j - i >= 1 {
                assert(t[0] == s@[i as int]);
            }
            if j - i >= 2 {
                assert(t[1] == s@[i + 1]);
            }
            if j - i >= 3 {
                assert(t[2] == s@[i + 2]);
            }
        }
        0
    }
}

fn back_ws_len_exec(s: &[u8], i: usize, j: usize) -> (k: usize)
    requires
        i <= j <= s.len(),
    ensures
        k == back_ws_len(s@.subrange(i as int, j as int)),
{
    let ghost t = s@.subrange(i as int, j as int);
    let n = j - i;
    if n >= 1 && ((9u8 <= s[j - 1] && s[j - 1] <= 13u8) || s[j - 1] == 32u8) {
        assert(t[n - 1] == s@[j - 1]);
        1
    } else if n >= 2 && s[j - 2] == 0xC2u8 && (s[j - 1] == 0x85u8 || s[j - 1] == 0xA0u8) {
        assert(t[n - 2] == s@[j - 2] && t[n - 1] == s@[j - 1]);
        2
    } else if n >= 3 && ((s[j - 3] == 0xE1u8 && s[j - 2] == 0x9Au8 && s[j - 1] == 0x80u8) || (s[j - 3] == 0xE2u8
        && s[j - 2] == 0x80u8 && ((0x80u8 <= s[j - 1] && s[j - 1] <= 0x8Au8) || s[j - 1] == 0xA8u8 || s[j - 1]
        == 0xA9u8 || s[j - 1] == 0xAFu8)) || (s[j - 3] == 0xE2u8 && s[j - 2] == 0x81u8 && s[j - 1] == 0x9Fu8) || (
    s[j - 3] == 0xE3u8 && s[j - 2] == 0x80u8 && s[j - 1] == 0x80u8)) {
        assert(t[n - 3] == s@[j - 3] && t[n - 2] == s@[j - 2] && t[n - 1] == s@[j - 1]);
        3
    } else {
        proof {
            if n >= 1 {
                assert(t[n - 1] == s@[j - 1]);
            }
            if n >= 2 {
                assert(t[n - 2] == s@[j - 2]);
            }
            if n >= 3 {
                assert(t[n - 3] == s@[j - 3]);
            }
        }
        0
    }
}

/// The bounds `[i, j)` of `trimmed(s)` inside `s`.
pub fn trim_bounds(s: &[u8]) -> (r: (usize, usize))
    ensures
        r.0 <= r.1 <= s.len(),
        s@.subrange(r.0 as int, r.1 as int) == trimmed(s@),
{
    let n = s.len();
    let mut i: usize = 0;
    assert(s@.subrange(0, n as int) =~= s@);
    while i < n
        invariant_except_break
            i <= n,
            n == s.len(),
            trim_front(s@) == trim_front(s@.subrange(i as int, n as int)),
        ensures
            i <= n,
            trim_front(s@) == trim_front(s@.subrange(i as int, n as int)),
            i == n || front_ws_len(s@.subrange(i as int, n as int)) == 0,
        decreases n - i,
    {
        let k = front_ws_len_exec(s, i, n);
        if k == 0 {
            break;
        }
        assert(s@.subrange(i as int, n as int).subrange(k as int, (n - i) as int) =~= s@.subrange(i + k, n as int));
        i = i + k;
    }
    proof {
        let t = s@.subrange(i as int, n as int);
        if i == n {
            assert(t.len() == 0);
        }
        assert(front_ws_len(t) == 0 || t.len() == 0);
        assert(trim_front(t) == t);
    }
    let mut j: usize = n;
    while j > i
        invariant_except_break
            i <= j <= n,
            n == s.len(),
            trimmed(s@) == trim_back(s@.subrange(i as int, j as int)),
        ensures
            i <= j <= n,
            trimmed(s@) == trim_back(s@.subrange(i as int, j as int)),
            j == i || back_ws_len(s@.subrange(i as int, j as int)) == 0,
        decreases j - i,
    {
        let k = back_ws_len_exec(s, i, j);
        if k == 0 {
            break;
        }
        assert(s@.subrange(i as int, j as int).subrange(0, (j - i - k) as int) =~= s@.subrange(i as int, j - k));
        j = j - k;
    }
    proof {
        let t = s@.subrange(i as int, j as int);
        assert(back_ws_len(t) == 0 || t.len() == 0);
        assert(trim_back(t) == t);
    }
    (i, j)
}

/// What `u8::from_str` gives: an optional `+`, then at least one decimal
/// digit and nothing else, with the value at most 255.
pub open spec fn decimal_u8(s: Seq<u8>) -> Option<u8> {
    let d = if s.len() > 0 && s[0] == 43u8 { s.drop_first() } else { s };
    if d.len() == 0 || !all_digits(d) || digits_value(d) > 255 {
        None
    } else {
        Some(digits_value(d) as u8)
    }
}

/// Reads a decimal `u8` as `u8::from_str` does.
pub fn parse_u8(s: &[u8]) -> (r: Option<u8>)
    ensures
        r == decimal_u8(s@),
{
    let n = s.len();
    let start: usize = if n > 0 && s[0] == 43u8 { 1 } else { 0 };
    let ghost d = if n > 0 && s@[0] == 43u8 { s@.drop_first() } else { s@ };
    assert(d =~= s@.subrange(start as int, n as int));
    if start >= n {
        return None;
    }
    let mut v: u32 = 0;
    let mut i: usize = start;
    while i < n
        invariant
            start <= i <= n,
            n == s.len(),
            d == s@.subrange(start as int, n as int),
            d == (if n > 0 && s@[0] == 43u8 { s@.drop_first() } else { s@ }),
            d.len() > 0,
            all_digits(s@.subrange(start as int, i as int)),
            v as int == digits_value(s@.subrange(start as int, i as int)),
            v <= 255,
        decreases n - i,
    {
        let b = s[i];
        let ghost pre = s@.subrange(start as int, i as int);
        assert(s@.subrange(start as int, i + 1).drop_last() =~= pre);
        if b < 48u8 || b > 57u8 {
            proof {
                assert(d[i - start] == b);
                assert(!is_digit(d[i - start]));
                assert(!all_digits(d));
            }
            return None;
        }
        let nv = v * 10 + (b - 48u8) as u32;
        if nv > 255 {
            proof {
                lemma_digits_prefix_grow(d, i - start + 1);
                assert(d.subrange(0, i - start + 1) =~= s@.subrange(start as int, i + 1));
                assert(s@.subrange(start as int, i + 1).last() == b);
                assert(digits_value(s@.subrange(start as int, i + 1)) == nv);
            }
            return None;
        }
        v = nv;
        i = i + 1;
    }
    assert(s@.subrange(start as int, n as int) =~= d);
    Some(v as u8)
}

proof fn lemma_digits_prefix_grow(d: Seq<u8>, k: int)
    requires
        0 <= k <= d.len(),
    ensures
        all_digits(d) ==> digits_value(d) >= digits_value(d.subrange(0, k)),
    decreases d.len() - k,
{
    if k < d.len() {
        lemma_digits_prefix_grow(d, k + 1);
        assert(d.subrange(0, k + 1).drop_last() =~= d.subrange(0, k));
        if all_digits(d) {
            lemma_digits_nonneg_all(d.subrange(0, k));
            assert(all_digits(d.subrange(0, k)));
        }
    } else {
        assert(d.subrange(0, k) =~= d);
    }
}

proof fn lemma_digits_nonneg_all(d: Seq<u8>)
    requires
        all_digits(d),
    ensures
        digits_value(d) >= 0,
    decreases d.len(),
{
    if d.len() > 0 {
        assert(all_digits(d.drop_last()));
        lemma_digits_nonneg_all(d.drop_last());
    }
}

} // verus!
