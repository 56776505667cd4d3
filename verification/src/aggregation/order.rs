//! The lexicographic order on byte strings (that of `Vec<u8>`'s `Ord`), and a
//! stable sort and a binary search of entries by their key.
use vstd::prelude::*;

verus! {

broadcast use vstd::seq_lib::group_to_multiset_ensures;

/// Three-way lexicographic comparison: `-1`, `0` or `1`.
pub open spec fn lex_order(a: Seq<u8>, b: Seq<u8>) -> int
    decreases a.len(),
{
    if a.len() == 0 {
        if b.len() == 0 {
            0
        } else {
            -1
        }
    } else if b.len() == 0 {
        1
    } else if a[0] < b[0] {
        -1
    } else if a[0] > b[0] {
        1
    } else {
        lex_order(a.drop_first(), b.drop_first())
    }
}

/// `a` comes no later than `b`.
pub open spec fn lex_le(a: Seq<u8>, b: Seq<u8>) -> bool {
    lex_order(a, b) <= 0
}

/// The comparison is `0` exactly on equal strings and swaps sign with its
/// arguments.
pub proof fn lemma_lex_order_basics(a: Seq<u8>, b: Seq<u8>)
    ensures
        -1 <= lex_order(a, b) <= 1,
        (lex_order(a, b) == 0) == (a == b),
        lex_order(a, b) == -lex_order(b, a),
    decreases a.len(),
{
    if a.len() > 0 && b.len() > 0 && a[0] == b[0] {
        lemma_lex_order_basics(a.drop_first(), b.drop_first());
        if a.drop_first() == b.drop_first() {
            assert(a =~= seq![a[0]] + a.drop_first());
            assert(b =~= seq![b[0]] + b.drop_first());
        }
    }
    if a.len() == 0 && b.len() == 0 {
        assert(a =~= b);
    }
}

/// The order is transitive.
pub proof fn lemma_lex_le_transitive(a: Seq<u8>, b: Seq<u8>, c: Seq<u8>)
    requires
        lex_le(a, b),
        lex_le(b, c),
    ensures
        lex_le(a, c),
    decreases a.len(),
{
    if a.len() > 0 && b.len() > 0 && c.len() > 0 && a[0] == b[0] && b[0] == c[0] {
        lemma_lex_le_transitive(a.drop_first(), b.drop_first(), c.drop_first());
    }
}

/// Compares `a` and `b` lexicographically.
pub fn compare_bytes(a: &Vec<u8>, b: &Vec<u8>) -> (r: i8)
    ensures
        r as int == lex_order(a@, b@),
{
    let mut i: usize = 0;
    assert(a@.skip(0) =~= a@);
    assert(b@.skip(0) =~= b@);
    while i < a.len() && i < b.len()
        invariant
            i <= a.len(),
            i <= b.len(),
            lex_order(a@, b@) == lex_order(a@.skip(i as int), b@.skip(i as int)),
        decreases a.len() - i,
    {
        let x = a[i];
        let y = b[i];
        assert(a@.skip(i as int)[0] == x);
        assert(b@.skip(i as int)[0] == y);
        if x < y {
            return -1;
        } else if x > y {
            return 1;
        }
        assert(a@.skip(i as int).drop_first() =~= a@.skip(i + 1));
        assert(b@.skip(i as int).drop_first() =~= b@.skip(i + 1));
        i = i + 1;
    }
    if a.len() == i && b.len() == i {
        0
    } else if a.len() == i {
        -1
    } else {
        1
    }
}

/// Entries carrying a byte-string key.
pub trait Keyed {
    /// Whether this entry carries a key.
    spec fn has_key(&self) -> bool;

    /// The key.
    spec fn key(&self) -> Seq<u8>;

    /// The key, by reference.
    fn key_ref(&self) -> (k: &Vec<u8>)
        requires
            self.has_key(),
        ensures
            k@ == self.key(),
    ;
}

/// Every entry of `s` carries a key.
pub open spec fn all_keyed<T: Keyed>(s: Seq<T>) -> bool {
    forall|i: int| 0 <= i < s.len() ==> #[trigger] s[i].has_key()
}

/// `s` is sorted by key.
pub open spec fn sorted_by_key<T: Keyed>(s: Seq<T>) -> bool {
    forall|i: int, j: int| 0 <= i < j < s.len() ==> lex_le(#[trigger] s[i].key(), #[trigger] s[j].key())
}

/// Sorts `v` by key, keeping equal keys in their order (insertion sort).
pub fn sort_by_key<T: Keyed>(v: &mut Vec<T>)
    requires
        all_keyed(old(v)@),
    ensures
        sorted_by_key(final(v)@),
        final(v)@.to_multiset() == old(v)@.to_multiset(),
        final(v)@.len() == old(v)@.len(),
{
    let ghost orig = v@;
    let n = v.len();
    let mut i: usize = 1;
    if n == 0 {
        return;
    }
    while i < n
        invariant
            n == v.len(),
            1 <= i <= n,
            v@.to_multiset() == orig.to_multiset(),
            sorted_by_key(v@.subrange(0, i as int)),
            all_keyed(v@),
        decreases n - i,
    {
        let ghost before = v@;
        let x = v.remove(i);
        let ghost removed = v@;
        assert(removed =~= before.remove(i as int));
        assert(x.has_key());
        assert forall|t: int| 0 <= t < removed.len() implies #[trigger] removed[t].has_key() by {
            if t < i {
                assert(removed[t] == before[t]);
            } else {
                assert(removed[t] == before[t + 1]);
            }
        }
        let mut k: usize = i;
        while k > 0 && compare_bytes(v[k - 1].key_ref(), x.key_ref()) > 0
            invariant
                0 <= k <= i,
                i < n,
                v@ == removed,
                removed.len() == n - 1,
                all_keyed(removed),
                x.has_key(),
                forall|t: int| k <= t < i ==> lex_order(#[trigger] removed[t].key(), x.key()) > 0,
            decreases k,
        {
            k = k - 1;
        }
        v.insert(k, x);
        proof {
            let s = v@;
            let pre = before.subrange(0, i as int);
            assert(removed.subrange(0, i as int) =~= pre);
            assert forall|a: int, b: int| 0 <= a < b < i + 1 implies lex_le(
                #[trigger] s.subrange(0, i + 1)[a].key(),
                #[trigger] s.subrange(0, i + 1)[b].key(),
            ) by {
                let sa = s.subrange(0, i + 1)[a];
                let sb = s.subrange(0, i + 1)[b];
                if b < k {
                    assert(sa == pre[a] && sb == pre[b]);
                } else if b == k {
                    assert(sa == pre[a]);
                    assert(sb == x);
                    if k > 0 {
                        let last = pre[k - 1];
                        lemma_lex_order_basics(last.key(), x.key());
                        if a < k - 1 {
                            assert(lex_le(pre[a].key(), last.key()));
                            lemma_lex_le_transitive(pre[a].key(), last.key(), x.key());
                        }
                    }
                } else if a == k {
                    assert(sa == x);
                    assert(sb == pre[b - 1]);
                    lemma_lex_order_basics(pre[b - 1].key(), x.key());
                } else if a < k {
                    assert(sa == pre[a]);
                    assert(sb == pre[b - 1]);
                } else {
                    assert(sa == pre[a - 1]);
                    assert(sb == pre[b - 1]);
                }
            }
            assert(s =~= removed.insert(k as int, x));
            assert forall|t: int| 0 <= t < s.len() implies #[trigger] s[t].has_key() by {
                if t < k {
                    assert(s[t] == removed[t]);
                } else if t > k {
                    assert(s[t] == removed[t - 1]);
                }
            }
            assert(before.remove(i as int).insert(k as int, x).to_multiset() =~= before.to_multiset());
        }
        i = i + 1;
    }
    assert(v@.subrange(0, n as int) =~= v@);
}

/// Finds the position of an entry whose key is `key` in `v[0..n)`, sorted
/// by key; `None` when no entry there has that key.
pub fn binary_search_by_key<T: Keyed>(v: &Vec<T>, n: usize, key: &Vec<u8>) -> (r: Option<usize>)
    requires
        n <= v.len(),
        sorted_by_key(v@.subrange(0, n as int)),
        all_keyed(v@.subrange(0, n as int)),
        key@.len() >= 0,
    ensures
        r is Some ==> r->0 < n && v@[r->0 as int].key() == key@,
        r is None ==> forall|t: int| 0 <= t < n ==> v@[t].key() != key@,
{
    let mut lo: usize = 0;
    let mut hi: usize = n;
    while lo < hi
        invariant
            n <= v.len(),
            lo <= hi <= n,
            sorted_by_key(v@.subrange(0, n as int)),
            all_keyed(v@.subrange(0, n as int)),
            forall|t: int| 0 <= t < lo ==> lex_order(#[trigger] v@[t].key(), key@) < 0,
            forall|t: int| hi <= t < n ==> lex_order(#[trigger] v@[t].key(), key@) > 0,
        decreases hi - lo,
    {
        let mid = lo + (hi - lo) / 2;
        assert(v@.subrange(0, n as int)[mid as int] == v@[mid as int]);
        let c = compare_bytes(v[mid].key_ref(), key);
        if c == 0 {
            proof {
                lemma_lex_order_basics(v@[mid as int].key(), key@);
            }
            return Some(mid);
        } else if c < 0 {
            proof {
                assert forall|t: int| 0 <= t < mid + 1 implies lex_order(#[trigger] v@[t].key(), key@) < 0 by {
                    if t < mid {
                        assert(v@.subrange(0, n as int)[t] == v@[t]);
                        assert(v@.subrange(0, n as int)[mid as int] == v@[mid as int]);
                        lemma_lex_le_transitive(v@[t].key(), v@[mid as int].key(), key@);
                        lemma_lex_order_basics(v@[t].key(), key@);
                        lemma_lex_order_basics(v@[mid as int].key(), key@);
                        if v@[t].key() == key@ {
                            lemma_lex_order_basics(v@[mid as int].key(), v@[t].key());
                        }
                    }
                }
            }
            lo = mid + 1;
        } else {
            proof {
                assert forall|t: int| mid <= t < n implies lex_order(#[trigger] v@[t].key(), key@) > 0 by {
                    if t > mid {
                        assert(v@.subrange(0, n as int)[t] == v@[t]);
                        assert(v@.subrange(0, n as int)[mid as int] == v@[mid as int]);
                        lemma_lex_order_basics(v@[t].key(), key@);
                        lemma_lex_order_basics(v@[mid as int].key(), key@);
                        lemma_lex_order_basics(v@[mid as int].key(), v@[t].key());
                        if lex_le(v@[t].key(), key@) {
                            lemma_lex_le_transitive(v@[mid as int].key(), v@[t].key(), key@);
                        }
                    }
                }
            }
            hi = mid;
        }
    }
    proof {
        assert forall|t: int| 0 <= t < n implies v@[t].key() != key@ by {
            lemma_lex_order_basics(v@[t].key(), key@);
        }
    }
    None
}

} // verus!
