//! The commitment tree `Mc` and the summation tree `Ms` of one round.
use vstd::prelude::*;
use crate::aggregation::merkle::{self as mk, MerkleProof, MerkleTree};
use crate::aggregation::node::{self as nd, CommitEntry, SummationEntry, SummationLeaf, SummationNonLeaf};
use crate::aggregation::order::{self as ord, Keyed, sort_by_key, binary_search_by_key};
use crate::common::summation_array_size;

verus! {

impl Keyed for CommitEntry {
    open spec fn has_key(&self) -> bool {
        true
    }

    open spec fn key(&self) -> Seq<u8> {
        self.rsa_pk@
    }

    fn key_ref(&self) -> (k: &Vec<u8>) {
        &self.rsa_pk
    }
}

impl Keyed for SummationLeaf {
    open spec fn has_key(&self) -> bool {
        true
    }

    open spec fn key(&self) -> Seq<u8> {
        self.rsa_pk@
    }

    fn key_ref(&self) -> (k: &Vec<u8>) {
        &self.rsa_pk
    }
}

impl Keyed for SummationEntry {
    open spec fn has_key(&self) -> bool {
        self is Leaf
    }

    open spec fn key(&self) -> Seq<u8> {
        match self {
            SummationEntry::Leaf(l) => l.rsa_pk@,
            _ => Seq::empty(),
        }
    }

    fn key_ref(&self) -> (k: &Vec<u8>) {
        self.get_leaf_rsa_pk()
    }
}

/// The all-zero 32-byte item.
pub open spec fn zero_item() -> Seq<u8> {
    Seq::new(32, |j: int| 0u8)
}

/// The items `items` are the commitment hashes of `arr` followed by
/// `nr_sybil` zero items.
pub open spec fn commit_items_are(items: Seq<[u8; 32]>, arr: Seq<CommitEntry>, nr_sybil: int) -> bool {
    &&& items.len() == arr.len() + nr_sybil
    &&& forall|i: int| 0 <= i < arr.len() ==> (#[trigger] items[i])@ == nd::commit_hash(arr[i])
    &&& forall|i: int| arr.len() <= i < items.len() ==> (#[trigger] items[i])@ == zero_item()
}

/// Appends `n` zero items to `v`.
fn push_zero_items(v: &mut Vec<[u8; 32]>, n: u32)
    ensures
        final(v)@.len() == old(v)@.len() + n,
        forall|i: int| 0 <= i < old(v)@.len() ==> #[trigger] final(v)@[i] == old(v)@[i],
        forall|i: int| old(v)@.len() <= i < final(v)@.len() ==> (#[trigger] final(v)@[i])@ == zero_item(),
{
    let ghost start = v@;
    let mut k: u32 = 0;
    while k < n
        invariant
            k <= n,
            v@.len() == start.len() + k,
            forall|i: int| 0 <= i < start.len() ==> #[trigger] v@[i] == start[i],
            forall|i: int| start.len() <= i < v@.len() ==> (#[trigger] v@[i])@ == zero_item(),
        decreases n - k,
    {
        let z = [0u8; 32];
        assert(z@ =~= zero_item());
        v.push(z);
        k = k + 1;
    }
}

/// The commitment tree: the participants' commitments and, once built, the
/// merkle tree over their hashes padded with `nr_sybil` zero items.
pub struct McTree {
    pub nr_real: u32,
    pub nr_sybil: u32,
    pub commit_array: Vec<CommitEntry>,
    pub mc: Option<MerkleTree>,
}

impl McTree {
    /// The tree is built: the commitments are sorted by key and the merkle
    /// tree holds their hashes followed by the zero items.
    pub open spec fn is_built(&self) -> bool {
        &&& self.mc is Some
        &&& ord::sorted_by_key(self.commit_array@)
        &&& commit_items_are(mk::merkle_items(self.mc->0), self.commit_array@, self.nr_sybil as int)
    }

    /// An empty commitment tree for `nr_real` participants.
    pub fn new(nr_real: u32, nr_sybil: u32) -> (t: Self)
        ensures
            t.nr_real == nr_real,
            t.nr_sybil == nr_sybil,
            t.commit_array@.len() == 0,
            t.mc is None,
    {
        McTree { nr_real, nr_sybil, commit_array: Vec::new(), mc: None }
    }

    /// The commitment at `id`, or at `id % nr_real` when `id` is past the
    /// real participants.
    pub fn get_node(&self, id: u32) -> (e: CommitEntry)
        requires
            id >= self.nr_real ==> self.nr_real > 0 && (id % self.nr_real) < self.commit_array.len(),
            id < self.nr_real ==> id < self.commit_array.len(),
        ensures
            ({
                let k = if id >= self.nr_real { id % self.nr_real } else { id };
                e.rsa_pk@ == self.commit_array@[k as int].rsa_pk@ && e.hash == self.commit_array@[k as int].hash
            }),
    {
        if id >= self.nr_real {
            self.commit_array[(id % self.nr_real) as usize].duplicate()
        } else {
            self.commit_array[id as usize].duplicate()
        }
    }

    fn build(&mut self)
        requires
            old(self).commit_array.len() + old(self).nr_sybil > 1,
        ensures
            final(self).nr_real == old(self).nr_real,
            final(self).nr_sybil == old(self).nr_sybil,
            final(self).commit_array@.to_multiset() == old(self).commit_array@.to_multiset(),
            final(self).commit_array@.len() == old(self).commit_array@.len(),
            final(self).is_built(),
    {
        sort_by_key(&mut self.commit_array);
        let mut items: Vec<[u8; 32]> = Vec::new();
        let mut i: usize = 0;
        while i < self.commit_array.len()
            invariant
                i <= self.commit_array.len(),
                items.len() == i,
                forall|k: int| 0 <= k < i ==> (#[trigger] items@[k])@ == nd::commit_hash(self.commit_array@[k]),
            decreases self.commit_array.len() - i,
        {
            let h = self.commit_array[i].hash();
            items.push(h);
            i = i + 1;
        }
        push_zero_items(&mut items, self.nr_sybil);
        let t = mk::MerkleTree::from_items(items);
        self.mc = Some(t);
    }

    /// Sorts the commitments by key and builds the merkle tree, once all
    /// `nr_real` commitments are in; reports whether it did.
    pub fn gen_tree(&mut self) -> (built: bool)
        requires
            old(self).commit_array.len() >= old(self).nr_real ==> old(self).commit_array.len()
                + old(self).nr_sybil > 1,
        ensures
            built == (old(self).commit_array.len() >= old(self).nr_real),
            !built ==> *final(self) == *old(self),
            built ==> final(self).is_built(),
            final(self).nr_real == old(self).nr_real,
            final(self).nr_sybil == old(self).nr_sybil,
            final(self).commit_array@.to_multiset() == old(self).commit_array@.to_multiset(),
            final(self).commit_array@.len() == old(self).commit_array@.len(),
    {
        if self.commit_array.len() < self.nr_real as usize {
            false
        } else {
            self.build();
            true
        }
    }

    /// Sorts the commitments and builds the merkle tree with whatever has
    /// arrived; returns how many commitments there are.
    pub fn gen_tree_timout(&mut self) -> (n: usize)
        requires
            old(self).commit_array.len() + old(self).nr_sybil > 1,
        ensures
            n == old(self).commit_array.len(),
            final(self).is_built(),
            final(self).nr_real == old(self).nr_real,
            final(self).nr_sybil == old(self).nr_sybil,
            final(self).commit_array@.to_multiset() == old(self).commit_array@.to_multiset(),
            final(self).commit_array@.len() == old(self).commit_array@.len(),
    {
        self.build();
        self.commit_array.len()
    }

    /// The inclusion proof of the commitment whose key is `rsa_pk`.
    pub fn get_proof(&self, rsa_pk: &Vec<u8>) -> (p: MerkleProof)
        requires
            self.is_built(),
            exists|k: int| 0 <= k < self.commit_array.len() && #[trigger] self.commit_array@[k].rsa_pk@
                == rsa_pk@,
        ensures
            exists|k: int|
                0 <= k < self.commit_array.len() && #[trigger] self.commit_array@[k].rsa_pk@ == rsa_pk@
                    && (p.lemma@, p.path@) == mk::merkle_proof_of(
                    mk::merkle_items(self.mc->0),
                    k,
                ),
    {
        assert(self.commit_array@.subrange(0, self.commit_array.len() as int) =~= self.commit_array@);
        let found = binary_search_by_key(&self.commit_array, self.commit_array.len(), rsa_pk);
        match found {
            Some(id) => {
                let t = self.mc.as_ref().unwrap();
                t.gen_proof(id)
            },
            None => vstd::pervasive::unreached(),
        }
    }

    /// The inclusion proof of merkle item `id`.
    pub fn get_proof_by_id(&self, id: u32) -> (p: MerkleProof)
        requires
            self.mc is Some,
            id < mk::merkle_items(self.mc->0).len(),
        ensures
            (p.lemma@, p.path@) == mk::merkle_proof_of(mk::merkle_items(self.mc->0), id as int),
            mk::proof_ok(p),
    {
        self.mc.as_ref().unwrap().gen_proof(id as usize)
    }

    /// Adds a commitment; at most `nr_real` are taken.
    pub fn insert_node(&mut self, node: CommitEntry)
        requires
            old(self).commit_array.len() < old(self).nr_real,
        ensures
            final(self).commit_array@ == old(self).commit_array@.push(node),
            final(self).nr_real == old(self).nr_real,
            final(self).nr_sybil == old(self).nr_sybil,
            final(self).mc == old(self).mc,
    {
        self.commit_array.push(node);
    }

    /// Drops every commitment and the merkle tree.
    pub fn clear(&mut self)
        ensures
            final(self).commit_array@.len() == 0,
            final(self).mc is None,
            final(self).nr_real == old(self).nr_real,
            final(self).nr_sybil == old(self).nr_sybil,
    {
        self.commit_array.clear();
        self.mc = None;
    }
}


/// Component `comp` (0 for `c0`, 1 for `c1`) of what an entry contributes to
/// its parent: a leaf its first coefficient, a non-leaf its partial sum.
pub open spec fn entry_value(e: SummationEntry, comp: int) -> int {
    match e {
        SummationEntry::Leaf(l) => if comp == 0 { l.c0@[0] as int } else { l.c1@[0] as int },
        SummationEntry::NonLeaf(n) => if comp == 0 { n.c0 as int } else { n.c1 as int },
        SummationEntry::Commit(_) => 0,
    }
}

/// Sum of `entry_value(a[k], comp)` over `lo <= k < hi`.
pub open spec fn value_sum(a: Seq<SummationEntry>, lo: int, hi: int, comp: int) -> int
    decreases hi - lo,
{
    if hi <= lo {
        0
    } else {
        entry_value(a[lo], comp) + value_sum(a, lo + 1, hi, comp)
    }
}

/// `v` is a value of `i128`.
pub open spec fn fits_i128(v: int) -> bool {
    i128::MIN <= v <= i128::MAX
}

/// Component `comp` of what node `idx` of the summation tree over the
/// leaves `a[0..n)` holds: a leaf its first coefficient, node `n + t` the
/// sum of nodes `2t` and `2t + 1`.
pub open spec fn node_sum(a: Seq<SummationEntry>, n: int, idx: int, comp: int) -> int
    decreases idx,
{
    if idx < n {
        entry_value(a[idx], comp)
    } else if idx < 2 * n - 1 {
        node_sum(a, n, 2 * (idx - n), comp) + node_sum(a, n, 2 * (idx - n) + 1, comp)
    } else {
        0
    }
}

/// Every non-leaf sum of the summation tree over the leaves `a[0..n)`, in
/// that order, lies within `i128`.
pub open spec fn sums_fit(a: Seq<SummationEntry>, n: int) -> bool {
    forall|idx: int|
        #![trigger node_sum(a, n, idx, 0)]
        n <= idx < 2 * n - 1 ==> fits_i128(node_sum(a, n, idx, 0)) && fits_i128(node_sum(a, n, idx, 1))
}

/// A leaf that can contribute: both polynomials are non-empty.
pub open spec fn usable_leaf(e: SummationEntry) -> bool {
    e is Leaf && e->Leaf_0.c0@.len() > 0 && e->Leaf_0.c1@.len() > 0
}

/// `a` is the summation array over its first `n` entries, the leaves: for
/// every `t < n - 1`, entry `n + t` is the non-leaf whose sums are those of
/// entries `2t` and `2t + 1`.
pub open spec fn is_summation_array(a: Seq<SummationEntry>, n: int) -> bool {
    &&& a.len() == (if n == 0 { 0 } else { 2 * n - 1 })
    &&& forall|k: int| 0 <= k < n ==> usable_leaf(#[trigger] a[k])
    &&& forall|t: int|
        0 <= t < n - 1 ==> {
            &&& (#[trigger] a[n + t]) is NonLeaf
            &&& a[n + t]->NonLeaf_0.c0 == entry_value(a[2 * t], 0) + entry_value(a[2 * t + 1], 0)
            &&& a[n + t]->NonLeaf_0.c1 == entry_value(a[2 * t], 1) + entry_value(a[2 * t + 1], 1)
        }
}

/// The hash under which an entry enters the summation tree.
pub open spec fn entry_hash(e: SummationEntry) -> Seq<u8> {
    match e {
        SummationEntry::Leaf(l) => nd::leaf_hash(l),
        SummationEntry::NonLeaf(n) => nd::nonleaf_hash(n),
        SummationEntry::Commit(_) => zero_item(),
    }
}

/// The items `items` are the entry hashes of `arr` followed by `nr_pad` zero
/// items.
pub open spec fn summation_items_are(items: Seq<[u8; 32]>, arr: Seq<SummationEntry>, nr_pad: int) -> bool {
    &&& items.len() == arr.len() + nr_pad
    &&& forall|i: int| 0 <= i < arr.len() ==> (#[trigger] items[i])@ == entry_hash(arr[i])
    &&& forall|i: int| arr.len() <= i < items.len() ==> (#[trigger] items[i])@ == zero_item()
}

/// The leaves that a summation array holds.
pub open spec fn leaf_entries(a: Seq<SummationEntry>) -> Seq<SummationLeaf> {
    Seq::new(a.len(), |i: int| a[i]->Leaf_0)
}

proof fn lemma_value_sum_push(a: Seq<SummationEntry>, lo: int, hi: int, comp: int)
    requires
        0 <= lo <= hi < a.len(),
    ensures
        value_sum(a, lo, hi + 1, comp) == value_sum(a, lo, hi, comp) + entry_value(a[hi], comp),
    decreases hi - lo,
{
    if lo < hi {
        lemma_value_sum_push(a, lo + 1, hi, comp);
    } else {
        assert(value_sum(a, hi + 1, hi + 1, comp) == 0);
    }
}

proof fn lemma_value_sum_prefix(a: Seq<SummationEntry>, b: Seq<SummationEntry>, lo: int, hi: int, comp: int)
    requires
        0 <= lo,
        hi <= a.len(),
        hi <= b.len(),
        forall|k: int| lo <= k < hi ==> a[k] == b[k],
    ensures
        value_sum(a, lo, hi, comp) == value_sum(b, lo, hi, comp),
    decreases hi - lo,
{
    if lo < hi {
        lemma_value_sum_prefix(a, b, lo + 1, hi, comp);
    }
}

/// The two sums that an entry contributes.
fn entry_value_exec(e: &SummationEntry) -> (v: (i128, i128))
    requires
        !(e is Commit),
        e is Leaf ==> e->Leaf_0.c0@.len() > 0 && e->Leaf_0.c1@.len() > 0,
    ensures
        v.0 as int == entry_value(*e, 0),
        v.1 as int == entry_value(*e, 1),
{
    match e {
        SummationEntry::Leaf(l) => {
            let n = l.evaluate_at(0);
            (n.c0, n.c1)
        },
        SummationEntry::NonLeaf(n) => (n.c0, n.c1),
        SummationEntry::Commit(_) => vstd::pervasive::unreached(),
    }
}

/// The summation tree: the participants' leaves, the non-leaves summed over
/// them and, once built, the merkle tree over all their hashes padded with
/// `2 * nr_sybil` zero items.
pub struct MsTree {
    pub nr_real: u32,
    pub nr_sybil: u32,
    pub nr_non_leaf: u32,
    pub summation_array: Vec<SummationEntry>,
    pub ms: Option<MerkleTree>,
}

impl MsTree {
    /// The tree is built over its first `n` entries, sorted leaves.
    pub open spec fn is_built_over(&self, n: int) -> bool {
        &&& self.ms is Some
        &&& is_summation_array(self.summation_array@, n)
        &&& ord::sorted_by_key(self.summation_array@.subrange(0, n))
        &&& summation_items_are(
            mk::merkle_items(self.ms->0),
            self.summation_array@,
            2 * self.nr_sybil,
        )
    }

    /// What building over the leaves `orig` left: the leaves, sorted by
    /// key, come first; where every partial sum over them fits (`ok`) the
    /// tree is built over them and its root holds the sums of all leaves,
    /// and otherwise only the sorted leaves remain, with no merkle tree.
    pub open spec fn built_from(&self, orig: Seq<SummationEntry>, ok: bool) -> bool {
        let n = orig.len() as int;
        let leaves = self.summation_array@.subrange(0, n);
        &&& self.summation_array@.len() >= n
        &&& leaf_entries(leaves).to_multiset() == leaf_entries(orig).to_multiset()
        &&& ord::sorted_by_key(leaves)
        &&& forall|k: int| 0 <= k < n ==> usable_leaf(#[trigger] leaves[k])
        &&& ok == sums_fit(leaves, n)
        &&& ok ==> self.is_built_over(n)
        &&& ok && n > 0 ==> value_sum(orig, 0, n, 0) == entry_value(self.summation_array@.last(), 0)
        &&& ok && n > 0 ==> value_sum(orig, 0, n, 1) == entry_value(self.summation_array@.last(), 1)
        &&& !ok ==> self.summation_array@.len() == n && self.ms is None
    }

    /// An empty summation tree for `nr_real` participants.
    pub fn new(nr_real: u32, nr_sybil: u32) -> (t: Self)
        requires
            nr_real <= 0x8000_0000,
        ensures
            t.nr_real == nr_real,
            t.nr_sybil == nr_sybil,
            t.nr_non_leaf == (if nr_real == 0 { 1 } else { 2 * nr_real - 1 }),
            t.summation_array@.len() == 0,
            t.ms is None,
    {
        let nr_non_leaf = summation_array_size(nr_real);
        MsTree { nr_real, nr_non_leaf, nr_sybil, summation_array: Vec::with_capacity(nr_real as usize), ms: None }
    }

    /// The entry at `id`, or at `id % nr_real` when `id` is past the real
    /// participants.
    pub fn get_leaf_node(&self, id: u32) -> (e: SummationEntry)
        requires
            id >= self.nr_real ==> self.nr_real > 0 && (id % self.nr_real) < self.summation_array.len(),
            id < self.nr_real ==> id < self.summation_array.len(),
        ensures
            ({
                let k = if id >= self.nr_real { id % self.nr_real } else { id };
                entry_copy(e, self.summation_array@[k as int])
            }),
    {
        if id >= self.nr_real {
            copy_entry(&self.summation_array[(id % self.nr_real) as usize])
        } else {
            copy_entry(&self.summation_array[id as usize])
        }
    }

    /// The entry at `id` when it lies among the non-leaves, else at
    /// `id % (nr_real + nr_non_leaf)`.
    pub fn get_nonleaf_node(&self, id: u32) -> (e: SummationEntry)
        requires
            self.nr_real + self.nr_non_leaf <= u32::MAX,
            ({
                let total = self.nr_real + self.nr_non_leaf;
                let k = if id < self.nr_real || id >= total { (id as int) % total } else { id as int };
                total > 0 && k < self.summation_array.len()
            }),
        ensures
            ({
                let total = self.nr_real + self.nr_non_leaf;
                let k = if id < self.nr_real || id >= total { (id as int) % total } else { id as int };
                entry_copy(e, self.summation_array@[k])
            }),
    {
        let total = self.nr_real + self.nr_non_leaf;
        if id < self.nr_real || id >= total {
            copy_entry(&self.summation_array[(id % total) as usize])
        } else {
            copy_entry(&self.summation_array[id as usize])
        }
    }

    /// The last entry, which must be a non-leaf.
    pub fn get_root(&self) -> (r: &SummationNonLeaf)
        requires
            self.summation_array.len() > 0,
            self.summation_array@.last() is NonLeaf,
        ensures
            *r == self.summation_array@.last()->NonLeaf_0,
    {
        let n = self.summation_array.len();
        match &self.summation_array[n - 1] {
            SummationEntry::NonLeaf(x) => x,
            _ => vstd::pervasive::unreached(),
        }
    }

    fn build(&mut self) -> (ok: bool)
        requires
            forall|k: int| 0 <= k < old(self).summation_array.len() ==> usable_leaf(
                #[trigger] old(self).summation_array@[k],
            ),
            old(self).summation_array.len() < 0x8000_0000,
            old(self).nr_sybil <= 0x7fff_ffff,
            old(self).summation_array.len() > 1 || old(self).nr_sybil > 0,
        ensures
            final(self).nr_real == old(self).nr_real,
            final(self).nr_sybil == old(self).nr_sybil,
            final(self).nr_non_leaf == old(self).nr_non_leaf,
            final(self).built_from(old(self).summation_array@, ok),
    {
        let ghost orig = self.summation_array@;
        let n = self.summation_array.len();
        // take the leaves out, keeping their order
        let mut stack: Vec<SummationEntry> = Vec::new();
        while self.summation_array.len() > 0
            invariant
                orig.len() == n,
                self.summation_array@.len() + stack@.len() == n,
                self.nr_real == old(self).nr_real,
                self.nr_sybil == old(self).nr_sybil,
                self.nr_non_leaf == old(self).nr_non_leaf,
                old(self).nr_sybil <= 0x7fff_ffff,
                self.summation_array@ == orig.subrange(0, self.summation_array@.len() as int),
                forall|k: int| 0 <= k < stack@.len() ==> #[trigger] stack@[k] == orig[n - 1 - k],
            decreases self.summation_array@.len(),
        {
            let ghost len0 = self.summation_array@.len();
            let e = self.summation_array.pop().unwrap();
            assert(e == orig[len0 - 1]);
            stack.push(e);
            assert(self.summation_array@ =~= orig.subrange(0, self.summation_array@.len() as int));
        }
        let mut leaves: Vec<SummationLeaf> = Vec::new();
        while stack.len() > 0
            invariant
                leaves@.len() + stack@.len() == n,
                forall|k: int| 0 <= k < stack@.len() ==> #[trigger] stack@[k] == orig[n - 1 - k],
                forall|k: int| 0 <= k < leaves@.len() ==> #[trigger] leaves@[k] == orig[k]->Leaf_0,
                forall|k: int| 0 <= k < n ==> usable_leaf(#[trigger] orig[k]),
            decreases stack@.len(),
        {
            let e = stack.pop().unwrap();
            match e {
                SummationEntry::Leaf(l) => {
                    leaves.push(l);
                },
                _ => {
                    assert(false);
                },
            }
        }
        assert(leaves@ =~= leaf_entries(orig));
        proof {
            assert forall|i: int| 0 <= i < leaves@.len() implies #[trigger] leaves@[i].has_key() by {}
        }
        sort_by_key(&mut leaves);
        let ghost sorted = leaves@;
        // put the sorted leaves back
        let mut rev: Vec<SummationLeaf> = Vec::new();
        while leaves.len() > 0
            invariant
                sorted.len() == n,
                leaves@.len() + rev@.len() == n,
                leaves@ == sorted.subrange(0, leaves@.len() as int),
                forall|k: int| 0 <= k < rev@.len() ==> #[trigger] rev@[k] == sorted[n - 1 - k],
            decreases leaves@.len(),
        {
            let ghost len0 = leaves@.len();
            let l = leaves.pop().unwrap();
            assert(l == sorted[len0 - 1]);
            rev.push(l);
            assert(leaves@ =~= sorted.subrange(0, leaves@.len() as int));
        }
        while rev.len() > 0
            invariant
                self.summation_array@.len() + rev@.len() == n,
                self.nr_real == old(self).nr_real,
                self.nr_sybil == old(self).nr_sybil,
                self.nr_non_leaf == old(self).nr_non_leaf,
                old(self).nr_sybil <= 0x7fff_ffff,
                forall|k: int| 0 <= k < rev@.len() ==> #[trigger] rev@[k] == sorted[n - 1 - k],
                forall|k: int|
                    0 <= k < self.summation_array@.len() ==> #[trigger] self.summation_array@[k]
                        == SummationEntry::Leaf(sorted[k]),
            decreases rev@.len(),
        {
            let l = rev.pop().unwrap();
            self.summation_array.push(SummationEntry::Leaf(l));
        }
        let ghost arr0 = self.summation_array@;
        proof {
            // the sorted leaves are a permutation of the ones that came in
            broadcast use vstd::seq_lib::group_to_multiset_ensures;
            assert(leaf_entries(arr0) =~= sorted);
            assert forall|k: int| 0 <= k < n implies usable_leaf(#[trigger] arr0[k]) by {
                assert(sorted.to_multiset().count(sorted[k]) > 0);
                assert(leaf_entries(orig).to_multiset().count(sorted[k]) > 0);
                let j = choose|j: int| 0 <= j < n && leaf_entries(orig)[j] == sorted[k];
                assert(usable_leaf(orig[j]));
            }
            assert(ord::sorted_by_key(arr0.subrange(0, n as int))) by {
                assert forall|a: int, b: int| 0 <= a < b < n implies ord::lex_le(
                    #[trigger] arr0.subrange(0, n as int)[a].key(),
                    #[trigger] arr0.subrange(0, n as int)[b].key(),
                ) by {
                    assert(ord::lex_le(sorted[a].key(), sorted[b].key()));
                }
            }
            lemma_leaf_sums_permutation(orig, arr0, n as int);
        }
        // the non-leaves
        let mut left: usize = 0;
        let mut right: usize = n;
        while left + 1 < right
            invariant
                n < 0x8000_0000,
                arr0.len() == n,
                orig.len() == n,
                orig == old(self).summation_array@,
                leaf_entries(arr0).to_multiset() == leaf_entries(orig).to_multiset(),
                ord::sorted_by_key(arr0.subrange(0, n as int)),
                left % 2 == 0,
                self.nr_real == old(self).nr_real,
                self.nr_sybil == old(self).nr_sybil,
                self.nr_non_leaf == old(self).nr_non_leaf,
                old(self).nr_sybil <= 0x7fff_ffff,
                right == n + left / 2,
                left <= right,
                n > 0 ==> left + 1 <= right,
                self.summation_array@.len() == right,
                forall|k: int| 0 <= k < n ==> #[trigger] self.summation_array@[k] == arr0[k],
                forall|k: int| 0 <= k < n ==> usable_leaf(#[trigger] arr0[k]),
                forall|t: int|
                    0 <= t < left / 2 ==> {
                        &&& (#[trigger] self.summation_array@[n + t]) is NonLeaf
                        &&& self.summation_array@[n + t]->NonLeaf_0.c0 == entry_value(
                            self.summation_array@[2 * t],
                            0,
                        ) + entry_value(self.summation_array@[2 * t + 1], 0)
                        &&& self.summation_array@[n + t]->NonLeaf_0.c1 == entry_value(
                            self.summation_array@[2 * t],
                            1,
                        ) + entry_value(self.summation_array@[2 * t + 1], 1)
                    },
                forall|k: int|
                    0 <= k < right ==> entry_value(#[trigger] self.summation_array@[k], 0) == node_sum(arr0, n as int, k, 0)
                        && entry_value(self.summation_array@[k], 1) == node_sum(arr0, n as int, k, 1),
                forall|k: int| n <= k < right ==> fits_i128(#[trigger] node_sum(arr0, n as int, k, 0)) && fits_i128(
                    node_sum(arr0, n as int, k, 1),
                ),
                value_sum(self.summation_array@, left as int, right as int, 0) == value_sum(arr0, 0, n as int, 0),
                value_sum(self.summation_array@, left as int, right as int, 1) == value_sum(arr0, 0, n as int, 1),
            decreases right - left,
        {
            let ghost a = self.summation_array@;
            proof {
                if left < n {
                    assert(usable_leaf(a[left as int]));
                } else {
                    let t = left - n;
                    assert(a[n + t] is NonLeaf);
                }
                if left + 1 < n {
                    assert(usable_leaf(a[left + 1]));
                } else {
                    let t = left + 1 - n;
                    assert(a[n + t] is NonLeaf);
                }
                assert(entry_value(a[left as int], 0) == node_sum(arr0, n as int, left as int, 0));
                assert(entry_value(a[left + 1], 0) == node_sum(arr0, n as int, left + 1, 0));
                assert(entry_value(a[left as int], 1) == node_sum(arr0, n as int, left as int, 1));
                assert(entry_value(a[left + 1], 1) == node_sum(arr0, n as int, left + 1, 1));
                assert(node_sum(arr0, n as int, right as int, 0) == node_sum(arr0, n as int, left as int, 0)
                    + node_sum(arr0, n as int, left + 1, 0));
                assert(node_sum(arr0, n as int, right as int, 1) == node_sum(arr0, n as int, left as int, 1)
                    + node_sum(arr0, n as int, left + 1, 1));
            }
            let (a0, a1) = entry_value_exec(&self.summation_array[left]);
            let (b0, b1) = entry_value_exec(&self.summation_array[left + 1]);
            let (c0, c1) = match (a0.checked_add(b0), a1.checked_add(b1)) {
                (Some(c0), Some(c1)) => (c0, c1),
                _ => {
                    // a partial sum leaves i128: no tree over these leaves
                    proof {
                        assert(!fits_i128(node_sum(arr0, n as int, right as int, 0)) || !fits_i128(
                            node_sum(arr0, n as int, right as int, 1),
                        ));
                        assert(!sums_fit(arr0, n as int));
                    }
                    self.summation_array.truncate(n);
                    self.ms = None;
                    proof {
                        assert(self.summation_array@ =~= arr0);
                        assert(self.summation_array@.subrange(0, n as int) =~= arr0);
                    }
                    return false;
                },
            };
            let c = SummationNonLeaf { c0, c1 };
            self.summation_array.push(SummationEntry::NonLeaf(c));
            proof {
                let a2 = self.summation_array@;
                lemma_value_sum_prefix(a, a2, left as int, right as int, 0);
                lemma_value_sum_prefix(a, a2, left as int, right as int, 1);
                lemma_value_sum_push(a2, left as int + 2, right as int, 0);
                lemma_value_sum_push(a2, left as int + 2, right as int, 1);
                assert(value_sum(a2, left + 1, right as int, 0) == entry_value(a2[left + 1], 0)
                    + value_sum(a2, left + 2, right as int, 0));
                assert(value_sum(a2, left + 1, right as int, 1) == entry_value(a2[left + 1], 1)
                    + value_sum(a2, left + 2, right as int, 1));
                assert forall|k: int| 0 <= k < right + 1 implies entry_value(#[trigger] a2[k], 0) == node_sum(
                    arr0,
                    n as int,
                    k,
                    0,
                ) && entry_value(a2[k], 1) == node_sum(arr0, n as int, k, 1) by {
                    if k < right {
                        assert(a2[k] == a[k]);
                    }
                }
                assert(entry_value(a2[right as int], 0) == c0);
                assert(entry_value(a2[right as int], 1) == c1);
                assert(fits_i128(node_sum(arr0, n as int, right as int, 0)));
                assert(fits_i128(node_sum(arr0, n as int, right as int, 1)));
                assert forall|k: int| n <= k < right + 1 implies fits_i128(#[trigger] node_sum(arr0, n as int, k, 0))
                    && fits_i128(node_sum(arr0, n as int, k, 1)) by {
                    if k < right {
                        assert(fits_i128(node_sum(arr0, n as int, k, 0)));
                    }
                }
            }
            left = left + 2;
            right = right + 1;
        }
        let ghost arr1 = self.summation_array@;
        proof {
            assert(is_summation_array(arr1, n as int)) by {
                if n > 0 {
                    assert(left == 2 * (n - 1));
                }
            }
            if n > 0 {
                assert(left + 1 == right);
                assert(value_sum(arr1, right as int, right as int, 0) == 0);
                assert(value_sum(arr1, right as int, right as int, 1) == 0);
                assert(value_sum(arr1, left as int, right as int, 0) == entry_value(arr1.last(), 0));
                assert(value_sum(arr1, left as int, right as int, 1) == entry_value(arr1.last(), 1));
                assert(right == 2 * n - 1);
            }
            assert(sums_fit(arr0, n as int));
            lemma_value_sum_prefix(orig, orig, 0, n as int, 0);
        }
        // the merkle tree over the entry hashes
        let mut items: Vec<[u8; 32]> = Vec::new();
        let mut i: usize = 0;
        while i < self.summation_array.len()
            invariant
                self.summation_array@ == arr1,
                i <= arr1.len(),
                self.nr_real == old(self).nr_real,
                self.nr_sybil == old(self).nr_sybil,
                self.nr_non_leaf == old(self).nr_non_leaf,
                old(self).nr_sybil <= 0x7fff_ffff,
                items.len() == i,
                forall|k: int| 0 <= k < i ==> (#[trigger] items@[k])@ == entry_hash(arr1[k]),
            decreases arr1.len() - i,
        {
            let h = match &self.summation_array[i] {
                SummationEntry::Leaf(y) => y.hash(),
                SummationEntry::NonLeaf(y) => y.hash(),
                SummationEntry::Commit(_) => {
                    let z = [0u8; 32];
                    assert(z@ =~= zero_item());
                    z
                },
            };
            items.push(h);
            i = i + 1;
        }
        push_zero_items(&mut items, 2 * self.nr_sybil);
        let t = mk::MerkleTree::from_items(items);
        self.ms = Some(t);
        proof {
            assert(arr1.subrange(0, n as int) =~= arr0.subrange(0, n as int));
            assert(arr0.subrange(0, n as int) =~= arr0);
            assert(leaf_entries(arr1.subrange(0, n as int)) =~= sorted);
        }
        true
    }

    /// Once all `nr_real` leaves are in, sorts them by key, appends the
    /// non-leaves and builds the merkle tree; reports whether it built the
    /// tree, which it does not where a partial sum leaves `i128` (the leaves
    /// then stay, sorted, without a tree).
    pub fn gen_tree(&mut self) -> (built: bool)
        requires
            old(self).summation_array.len() >= old(self).nr_real ==> {
                &&& forall|k: int| 0 <= k < old(self).summation_array.len() ==> usable_leaf(
                    #[trigger] old(self).summation_array@[k],
                )
                &&& old(self).summation_array.len() < 0x8000_0000
                &&& old(self).nr_sybil <= 0x7fff_ffff
                &&& old(self).summation_array.len() > 1 || old(self).nr_sybil > 0
            },
        ensures
            old(self).summation_array.len() < old(self).nr_real ==> !built && *final(self) == *old(self),
            old(self).summation_array.len() >= old(self).nr_real ==> final(self).built_from(
                old(self).summation_array@,
                built,
            ),
            final(self).nr_real == old(self).nr_real,
            final(self).nr_sybil == old(self).nr_sybil,
            final(self).nr_non_leaf == old(self).nr_non_leaf,
    {
        if self.summation_array.len() < self.nr_real as usize {
            false
        } else {
            self.build()
        }
    }

    /// Builds the tree with whatever leaves have arrived, as `gen_tree`
    /// does once all are in; returns how many there were.
    pub fn gen_tree_timeout(&mut self) -> (n: usize)
        requires
            forall|k: int| 0 <= k < old(self).summation_array.len() ==> usable_leaf(
                #[trigger] old(self).summation_array@[k],
            ),
            old(self).summation_array.len() < 0x8000_0000,
            old(self).nr_sybil <= 0x7fff_ffff,
            old(self).summation_array.len() > 1 || old(self).nr_sybil > 0,
        ensures
            n == old(self).summation_array.len(),
            final(self).built_from(old(self).summation_array@, final(self).ms is Some),
            final(self).nr_real == old(self).nr_real,
            final(self).nr_sybil == old(self).nr_sybil,
    {
        let ret = self.summation_array.len();
        let ok = self.build();
        proof {
            if ok {
                assert(self.is_built_over(ret as int));
            }
        }
        ret
    }

    /// The inclusion proof of the leaf whose key is `rsa_pk`, searched among
    /// the first `nr_real` entries.
    pub fn get_proof(&self, rsa_pk: &Vec<u8>) -> (p: MerkleProof)
        requires
            self.ms is Some,
            self.nr_real <= self.summation_array.len(),
            ord::sorted_by_key(self.summation_array@.subrange(0, self.nr_real as int)),
            ord::all_keyed(self.summation_array@.subrange(0, self.nr_real as int)),
            summation_items_are(mk::merkle_items(self.ms->0), self.summation_array@, 2 * self.nr_sybil),
            exists|k: int| 0 <= k < self.nr_real && #[trigger] self.summation_array@[k].key() == rsa_pk@,
        ensures
            exists|k: int|
                0 <= k < self.nr_real && #[trigger] self.summation_array@[k].key() == rsa_pk@
                    && (p.lemma@, p.path@) == mk::merkle_proof_of(mk::merkle_items(self.ms->0), k),
    {
        let found = binary_search_by_key(&self.summation_array, self.nr_real as usize, rsa_pk);
        match found {
            Some(id) => self.ms.as_ref().unwrap().gen_proof(id),
            None => vstd::pervasive::unreached(),
        }
    }

    /// The inclusion proof of merkle item `id`.
    pub fn get_proof_by_id(&self, id: u32) -> (p: MerkleProof)
        requires
            self.ms is Some,
            id < mk::merkle_items(self.ms->0).len(),
        ensures
            (p.lemma@, p.path@) == mk::merkle_proof_of(mk::merkle_items(self.ms->0), id as int),
            mk::proof_ok(p),
    {
        self.ms.as_ref().unwrap().gen_proof(id as usize)
    }

    /// Appends a leaf, also past `nr_real` (such a leaf is only worth a log line).
    pub fn insert_node(&mut self, node: SummationLeaf)
        ensures
            final(self).summation_array@ == old(self).summation_array@.push(SummationEntry::Leaf(node)),
            final(self).nr_real == old(self).nr_real,
            final(self).nr_sybil == old(self).nr_sybil,
            final(self).nr_non_leaf == old(self).nr_non_leaf,
            final(self).ms == old(self).ms,
    {
        self.summation_array.push(SummationEntry::Leaf(node));
    }

    /// Drops every entry and the merkle tree.
    pub fn clear(&mut self)
        ensures
            final(self).summation_array@.len() == 0,
            final(self).ms is None,
            final(self).nr_real == old(self).nr_real,
            final(self).nr_sybil == old(self).nr_sybil,
            final(self).nr_non_leaf == old(self).nr_non_leaf,
    {
        self.summation_array.clear();
        self.ms = None;
    }
}

/// `e` is a copy of `orig`: same variant, same field values.
pub open spec fn entry_copy(e: SummationEntry, orig: SummationEntry) -> bool {
    match (e, orig) {
        (SummationEntry::Leaf(a), SummationEntry::Leaf(b)) => a.rsa_pk@ == b.rsa_pk@ && a.c0@ == b.c0@
            && a.c1@ == b.c1@ && a.r == b.r && a.proof@ == b.proof@,
        (SummationEntry::NonLeaf(a), SummationEntry::NonLeaf(b)) => a == b,
        (SummationEntry::Commit(a), SummationEntry::Commit(b)) => a.rsa_pk@ == b.rsa_pk@ && a.hash == b.hash,
        _ => false,
    }
}

/// A copy of an entry.
pub fn copy_entry(e: &SummationEntry) -> (c: SummationEntry)
    ensures
        entry_copy(c, *e),
{
    match e {
        SummationEntry::Leaf(l) => SummationEntry::Leaf(l.duplicate()),
        SummationEntry::NonLeaf(n) => SummationEntry::NonLeaf(*n),
        SummationEntry::Commit(c) => SummationEntry::Commit(c.duplicate()),
    }
}


/// A leaf with coefficients `c0`, `c1` may join the leaves `a` of a tree
/// with `nr_sybil` sybils, and the tree then be built over them: every
/// entry is a usable leaf, so are the new coefficients, and the sizes lie
/// within range (whether the partial sums fit `i128` is decided when the
/// tree is built).
pub open spec fn leaf_fits(a: Seq<SummationEntry>, c0: Seq<i128>, c1: Seq<i128>, nr_sybil: u32) -> bool {
    &&& forall|k: int| 0 <= k < a.len() ==> usable_leaf(#[trigger] a[k])
    &&& c0.len() > 0
    &&& c1.len() > 0
    &&& a.len() + 1 < 0x8000_0000
    &&& nr_sybil <= 0x7fff_ffff
    &&& (a.len() + 1 > 1 || nr_sybil > 0)
}

/// Adding a leaf that fits keeps every entry a usable leaf.
pub proof fn lemma_fits_push(a: Seq<SummationEntry>, l: SummationLeaf, nr_sybil: u32)
    requires
        leaf_fits(a, l.c0@, l.c1@, nr_sybil),
    ensures
        ({
            let b = a.push(SummationEntry::Leaf(l));
            &&& forall|k: int| 0 <= k < b.len() ==> usable_leaf(#[trigger] b[k])
            &&& b.len() < 0x8000_0000
            &&& nr_sybil <= 0x7fff_ffff
            &&& (b.len() > 1 || nr_sybil > 0)
        }),
{
    let b = a.push(SummationEntry::Leaf(l));
    assert forall|k: int| 0 <= k < b.len() implies usable_leaf(#[trigger] b[k]) by {
        if k < a.len() {
            assert(b[k] == a[k]);
        }
    }
}

impl McTree {
    /// Whether another commitment may be inserted.
    pub fn has_room(&self) -> (b: bool)
        ensures
            b == (self.commit_array.len() < self.nr_real),
    {
        self.commit_array.len() < self.nr_real as usize
    }

    /// The inclusion proof of the commitment keyed `rsa_pk`; `None` where the
    /// tree is not built or holds no such commitment.
    pub fn find_proof(&self, rsa_pk: &Vec<u8>) -> (p: Option<MerkleProof>)
        requires
            self.mc is Some ==> self.is_built(),
        ensures
            p is None <==> (self.mc is None || forall|k: int|
                0 <= k < self.commit_array.len() ==> #[trigger] self.commit_array@[k].rsa_pk@ != rsa_pk@),
            p is Some ==> exists|k: int|
                0 <= k < self.commit_array.len() && #[trigger] self.commit_array@[k].rsa_pk@ == rsa_pk@
                    && (p->0.lemma@, p->0.path@) == mk::merkle_proof_of(mk::merkle_items(self.mc->0), k),
    {
        match &self.mc {
            None => None,
            Some(t) => {
                assert(self.commit_array@.subrange(0, self.commit_array.len() as int) =~= self.commit_array@);
                match binary_search_by_key(&self.commit_array, self.commit_array.len(), rsa_pk) {
                    Some(id) => Some(t.gen_proof(id)),
                    None => None,
                }
            },
        }
    }
}

impl MsTree {
    /// How many leaves a built summation array holds.
    pub open spec fn leaf_count(&self) -> int {
        (self.summation_array@.len() as int + 1) / 2
    }

    /// Once built, the tree is built over its leaves, at least `nr_real`.
    pub open spec fn is_ready(&self) -> bool {
        self.ms is Some ==> self.is_built_over(self.leaf_count()) && self.nr_real <= self.leaf_count()
    }

    /// Decides `leaf_fits` for this tree's entries.
    pub fn fits_leaf(&self, c0: &Vec<i128>, c1: &Vec<i128>) -> (b: bool)
        ensures
            b == leaf_fits(self.summation_array@, c0@, c1@, self.nr_sybil),
    {
        let a = &self.summation_array;
        let n = a.len();
        if c0.len() == 0 || c1.len() == 0 || n >= 0x7fff_ffff || self.nr_sybil > 0x7fff_ffff {
            return false;
        }
        if n == 0 && self.nr_sybil == 0 {
            return false;
        }
        let mut i: usize = 0;
        while i < n
            invariant
                n == a.len(),
                a@ == self.summation_array@,
                i <= n,
                forall|k: int| 0 <= k < i ==> usable_leaf(#[trigger] a@[k]),
            decreases n - i,
        {
            let ok = match &a[i] {
                SummationEntry::Leaf(l) => l.c0.len() > 0 && l.c1.len() > 0,
                _ => false,
            };
            if !ok {
                assert(!usable_leaf(a@[i as int]));
                return false;
            }
            i = i + 1;
        }
        true
    }

    /// The inclusion proof of the leaf keyed `rsa_pk` among the first
    /// `nr_real` entries; `None` where the tree is not built or no such leaf
    /// is there.
    pub fn find_proof(&self, rsa_pk: &Vec<u8>) -> (p: Option<MerkleProof>)
        requires
            self.is_ready(),
        ensures
            p is None <==> (self.ms is None || forall|k: int|
                0 <= k < self.nr_real ==> #[trigger] self.summation_array@[k].key() != rsa_pk@),
            p is Some ==> exists|k: int|
                0 <= k < self.nr_real && #[trigger] self.summation_array@[k].key() == rsa_pk@
                    && (p->0.lemma@, p->0.path@) == mk::merkle_proof_of(mk::merkle_items(self.ms->0), k),
    {
        match &self.ms {
            None => None,
            Some(t) => {
                let ghost a = self.summation_array@;
                let ghost n = self.leaf_count();
                proof {
                    let sub = a.subrange(0, self.nr_real as int);
                    assert(ord::sorted_by_key(sub)) by {
                        assert forall|x: int, y: int| 0 <= x < y < sub.len() implies ord::lex_le(
                            #[trigger] sub[x].key(),
                            #[trigger] sub[y].key(),
                        ) by {
                            assert(sub[x] == a.subrange(0, n)[x]);
                            assert(sub[y] == a.subrange(0, n)[y]);
                        }
                    }
                    assert(ord::all_keyed(sub)) by {
                        assert forall|x: int| 0 <= x < sub.len() implies #[trigger] sub[x].has_key() by {
                            assert(sub[x] == a[x]);
                            assert(usable_leaf(a[x]));
                        }
                    }
                }
                match binary_search_by_key(&self.summation_array, self.nr_real as usize, rsa_pk) {
                    Some(id) => {
                        assert(id < mk::merkle_items(*t).len());
                        Some(t.gen_proof(id))
                    },
                    None => None,
                }
            },
        }
    }
}

/// The value a leaf contributes, as a fold step.
pub open spec fn value_step(comp: int) -> spec_fn(SummationLeaf, int) -> int {
    |l: SummationLeaf, acc: int| entry_value(SummationEntry::Leaf(l), comp) + acc
}

proof fn lemma_value_sum_fold(a: Seq<SummationEntry>, lo: int, hi: int, comp: int)
    requires
        0 <= lo <= hi <= a.len(),
        forall|k: int| lo <= k < hi ==> (#[trigger] a[k]) is Leaf,
    ensures
        value_sum(a, lo, hi, comp) == leaf_entries(a).subrange(lo, hi).fold_right_alt(value_step(comp), 0),
    decreases hi - lo,
{
    let s = leaf_entries(a).subrange(lo, hi);
    if lo < hi {
        lemma_value_sum_fold(a, lo + 1, hi, comp);
        assert(s.subrange(1, s.len() as int) =~= leaf_entries(a).subrange(lo + 1, hi));
        assert(a[lo] is Leaf);
        assert(SummationEntry::Leaf(s[0]) == a[lo]);
    }
}

proof fn lemma_leaf_sums_permutation(orig: Seq<SummationEntry>, arr: Seq<SummationEntry>, n: int)
    requires
        orig.len() == n,
        arr.len() == n,
        forall|k: int| 0 <= k < n ==> (#[trigger] orig[k]) is Leaf,
        forall|k: int| 0 <= k < n ==> (#[trigger] arr[k]) is Leaf,
        leaf_entries(arr).to_multiset() == leaf_entries(orig).to_multiset(),
    ensures
        value_sum(arr, 0, n, 0) == value_sum(orig, 0, n, 0),
        value_sum(arr, 0, n, 1) == value_sum(orig, 0, n, 1),
{
    let la = leaf_entries(arr);
    let lo = leaf_entries(orig);
    assert(la.subrange(0, n) =~= la);
    assert(lo.subrange(0, n) =~= lo);
    assert forall|comp: int| comp == 0 || comp == 1 implies value_sum(arr, 0, n, comp) == value_sum(
        orig,
        0,
        n,
        comp,
    ) by {
        lemma_value_sum_fold(arr, 0, n, comp);
        lemma_value_sum_fold(orig, 0, n, comp);
        la.lemma_fold_right_alt(value_step(comp), 0);
        lo.lemma_fold_right_alt(value_step(comp), 0);
        assert(vstd::seq_lib::commutative_foldr(value_step(comp)));
        vstd::seq_lib::lemma_fold_right_permutation(la, lo, value_step(comp), 0);
    }
}

} // verus!
