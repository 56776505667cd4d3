//! The aggregation server's rounds: the stage machine, what each request does
//! to the trees, and the answers it gives. Locking, waiting and timers are the
//! caller's.
use vstd::prelude::*;
use crate::aggregation::merkle::{self as mk, MerkleProof};
use crate::aggregation::node::{CommitEntry, SummationEntry, SummationLeaf};
use crate::aggregation::tree::{self as tr, McTree, MsTree};
use crate::aggregation::order::Keyed;

verus! {

/// The stage of a round.
#[derive(Debug, Clone, Copy, PartialEq, Eq, Structural)]
pub enum STAGE {
    Commit,
    Data,
    Verify,
}

/// Whether a request that needs `target` may still see it from `current`:
/// the next round's commit stage from the verify stage, and the same round's
/// current or following stage otherwise; any other pair is no reason to give
/// up.
pub open spec fn waitable(current: (STAGE, u32), target: (STAGE, u32)) -> bool {
    match (current.0, target.0) {
        (STAGE::Verify, STAGE::Commit) => current.1 + 1 == target.1,
        (STAGE::Commit, STAGE::Commit) => current.1 == target.1,
        (STAGE::Commit, STAGE::Data) => current.1 == target.1,
        (STAGE::Data, STAGE::Data) => current.1 == target.1,
        (STAGE::Data, STAGE::Verify) => current.1 == target.1,
        (STAGE::Verify, STAGE::Verify) => current.1 == target.1,
        _ => true,
    }
}

/// Decides `waitable`.
pub fn is_waitable(current: &(STAGE, u32), target: (STAGE, u32)) -> (b: bool)
    ensures
        b == waitable(*current, target),
{
    match (current.0, target.0) {
        (STAGE::Verify, STAGE::Commit) => (current.1 as u64) + 1 == target.1 as u64,
        (STAGE::Commit, STAGE::Commit) => current.1 == target.1,
        (STAGE::Commit, STAGE::Data) => current.1 == target.1,
        (STAGE::Data, STAGE::Data) => current.1 == target.1,
        (STAGE::Data, STAGE::Verify) => current.1 == target.1,
        (STAGE::Verify, STAGE::Verify) => current.1 == target.1,
        _ => true,
    }
}

/// The state after a move towards `target`: commit to data and data to
/// verify in the same round, verify to the next round's commit; any other
/// move leaves the state as it is.
pub open spec fn stage_after(state: (STAGE, u32), target: STAGE) -> (STAGE, u32) {
    match (state.0, target) {
        (STAGE::Commit, STAGE::Data) => (STAGE::Data, state.1),
        (STAGE::Data, STAGE::Verify) => (STAGE::Verify, state.1),
        (STAGE::Verify, STAGE::Commit) => (STAGE::Commit, (state.1 + 1) as u32),
        _ => state,
    }
}

/// Moves the state towards `target`, as `stage_after` says. The round
/// counter must have room for the next round.
pub fn next_stage_to(state: (STAGE, u32), target: STAGE) -> (s: (STAGE, u32))
    requires
        state.0 == STAGE::Verify && target == STAGE::Commit ==> state.1 < u32::MAX,
    ensures
        s == stage_after(state, target),
{
    match (state.0, target) {
        (STAGE::Commit, STAGE::Data) => (STAGE::Data, state.1),
        (STAGE::Data, STAGE::Verify) => (STAGE::Verify, state.1),
        (STAGE::Verify, STAGE::Commit) => (STAGE::Commit, state.1 + 1),
        _ => state,
    }
}

/// Moving commit, data, verify, commit brings any round to the next one's
/// commit stage.
pub proof fn lemma_full_round(r: u32)
    requires
        r < u32::MAX,
    ensures
        stage_after(stage_after(stage_after((STAGE::Commit, r), STAGE::Data), STAGE::Verify), STAGE::Commit)
            == (STAGE::Commit, (r + 1) as u32),
{
}

/// Every move other than the three forward ones leaves the state unchanged.
pub proof fn lemma_no_other_move(state: (STAGE, u32), target: STAGE)
    requires
        !(state.0 == STAGE::Commit && target == STAGE::Data),
        !(state.0 == STAGE::Data && target == STAGE::Verify),
        !(state.0 == STAGE::Verify && target == STAGE::Commit),
    ensures
        stage_after(state, target) == state,
{
}

/// A request may wait for whatever the stage machine reaches next: from any
/// state, the state itself, the state after one forward move and the state
/// after two are all waitable (so from a stage of round `r` every later
/// stage of round `r`, and the next round's commit stage, can still come).
/// From verify, the commit stage of the same round, already left behind, is
/// not waitable, nor the verify stage of the next round.
pub proof fn lemma_coming_stages_waitable(state: (STAGE, u32), t1: STAGE, t2: STAGE)
    requires
        state.1 < u32::MAX,
    ensures
        waitable(state, state),
        waitable(state, stage_after(state, t1)),
        waitable(state, stage_after(stage_after(state, t1), t2)),
        waitable((STAGE::Commit, state.1), (STAGE::Data, state.1)),
        waitable((STAGE::Data, state.1), (STAGE::Verify, state.1)),
        waitable((STAGE::Verify, state.1), (STAGE::Commit, (state.1 + 1) as u32)),
        !waitable((STAGE::Verify, state.1), (STAGE::Commit, state.1)),
        !waitable((STAGE::Verify, state.1), (STAGE::Verify, (state.1 + 1) as u32)),
{
}

/// What a request waiting for `target` in `round` does next.
#[derive(Debug, Clone, Copy, PartialEq, Eq, Structural)]
pub enum WaitStep {
    /// The round is neither the current nor the next one: give up.
    GiveUp,
    /// The stage is reached: go on.
    Proceed,
    /// Wait for the next change of state and ask again.
    Wait,
}

/// The decision of a request that waits for `target` in `round`: give up
/// unless `round` is the current round or the next, go on once the stage is
/// `target`, wait otherwise.
pub open spec fn wait_step(state: (STAGE, u32), target: STAGE, round: u32) -> WaitStep {
    if round != state.1 && state.1 + 1 != round {
        WaitStep::GiveUp
    } else if state.0 == target {
        WaitStep::Proceed
    } else {
        WaitStep::Wait
    }
}

/// Decides `wait_step`.
pub fn wait_till(state: (STAGE, u32), target: STAGE, round: u32) -> (w: WaitStep)
    ensures
        w == wait_step(state, target, round),
{
    if round != state.1 && (state.1 as u64) + 1 != round as u64 {
        WaitStep::GiveUp
    } else if state.0 == target {
        WaitStep::Proceed
    } else {
        WaitStep::Wait
    }
}


/// What became of a request.
#[derive(Debug, Clone, Copy, PartialEq, Eq, Structural)]
pub enum Outcome {
    /// The server is not in the stage the request belongs to; nothing changed.
    WrongStage,
    /// The request does not fit the trees; nothing changed.
    Refused,
    /// The request was taken in.
    Accepted,
    /// The request was taken in and completed the stage.
    Advanced,
}

/// The server's trees and stage: one commitment tree and one summation tree
/// per ciphertext of the model.
pub struct Server {
    pub mc: Vec<McTree>,
    pub ms: Vec<MsTree>,
    pub state: (STAGE, u32),
    pub nr_parameter: u32,
}

/// A commitment of `rsa_pk` may be added to each of the first `n` trees of
/// `mc`.
pub open spec fn commit_fits(mc: Seq<McTree>, n: int) -> bool {
    &&& n <= mc.len()
    &&& forall|i: int| 0 <= i < n ==> (#[trigger] mc[i]).commit_array.len() < mc[i].nr_real
}

/// Leaf `i` of a data upload may join summation tree `i`, for each of the
/// first `n` trees: where the leaf would complete the tree, the tree is not
/// built yet and `leaf_fits` holds (whether the tree's partial sums fit is
/// decided when it is built).
pub open spec fn data_fits(
    ms: Seq<MsTree>,
    c0: Seq<Vec<i128>>,
    c1: Seq<Vec<i128>>,
    proofs_len: int,
    n: int,
) -> bool {
    &&& n <= ms.len()
    &&& n <= c0.len()
    &&& n <= c1.len()
    &&& n <= proofs_len
    &&& forall|i: int|
        0 <= i < n ==> ((#[trigger] ms[i]).summation_array.len() + 1 >= ms[i].nr_real ==> {
            &&& ms[i].ms is None
            &&& tr::leaf_fits(ms[i].summation_array@, c0[i]@, c1[i]@, ms[i].nr_sybil)
        })
}

/// Whether each of the first `n` trees of `mc` has room for one more
/// commitment.
pub fn all_have_room(mc: &Vec<McTree>, n: usize) -> (b: bool)
    requires
        n <= mc.len(),
    ensures
        b == commit_fits(mc@, n as int),
{
    let mut k: usize = 0;
    while k < n
        invariant
            n <= mc.len(),
            k <= n,
            forall|i: int| 0 <= i < k ==> (#[trigger] mc@[i]).commit_array.len() < mc@[i].nr_real,
        decreases n - k,
    {
        if !mc[k].has_room() {
            return false;
        }
        k = k + 1;
    }
    true
}


/// Decides `data_fits`.
pub fn data_fits_exec(
    ms: &Vec<MsTree>,
    c0: &Vec<Vec<i128>>,
    c1: &Vec<Vec<i128>>,
    proofs_len: usize,
    n: usize,
) -> (b: bool)
    ensures
        b == data_fits(ms@, c0@, c1@, proofs_len as int, n as int),
{
    if n > ms.len() || n > c0.len() || n > c1.len() || n > proofs_len {
        return false;
    }
    let mut k: usize = 0;
    while k < n
        invariant
            n <= ms.len(),
            n <= c0.len(),
            n <= c1.len(),
            k <= n,
            forall|i: int|
                0 <= i < k ==> ((#[trigger] ms@[i]).summation_array.len() + 1 >= ms@[i].nr_real ==> {
                    &&& ms@[i].ms is None
                    &&& tr::leaf_fits(ms@[i].summation_array@, c0@[i]@, c1@[i]@, ms@[i].nr_sybil)
                }),
        decreases n - k,
    {
        let t = &ms[k];
        if (t.summation_array.len() as u128) + 1 >= t.nr_real as u128 {
            if t.ms.is_some() || !t.fits_leaf(&c0[k], &c1[k]) {
                return false;
            }
        }
        k = k + 1;
    }
    true
}

/// The leaf a participant's upload puts into tree `i`.
pub open spec fn uploaded_leaf(
    l: SummationLeaf,
    rsa_pk: Seq<u8>,
    c0: Seq<i128>,
    c1: Seq<i128>,
    nonce: [u8; 16],
    proof: Seq<u8>,
) -> bool {
    l.rsa_pk@ == rsa_pk && l.c0@ == c0 && l.c1@ == c1 && l.r == nonce && l.proof@ == proof
}

impl Server {
    /// The trees pair up and share their sizes, and each built tree is built
    /// over its entries.
    pub open spec fn wf(&self) -> bool {
        &&& self.mc.len() == self.ms.len()
        &&& forall|i: int|
            0 <= i < self.mc.len() ==> {
                &&& (#[trigger] self.mc@[i]).nr_real == self.ms@[i].nr_real
                &&& self.mc@[i].nr_sybil == self.ms@[i].nr_sybil
                &&& self.mc@[i].nr_real + self.mc@[i].nr_sybil > 1
                &&& (self.mc@[i].mc is Some ==> self.mc@[i].is_built())
                &&& (self.mc@[i].mc is Some ==> self.mc@[i].commit_array.len() >= self.mc@[i].nr_real)
                &&& self.ms@[i].is_ready()
                &&& self.ms@[i].nr_non_leaf == (if self.ms@[i].nr_real == 0 { 1 } else { 2 * self.ms@[i].nr_real - 1 })
                &&& (self.ms@[i].ms is None ==> forall|k: int|
                    0 <= k < self.ms@[i].summation_array.len() ==> (#[trigger] self.ms@[i].summation_array@[k]) is Leaf)
            }
    }

    /// A server for `nr_real + nr_sim` participants and `nr_sybil` sybils
    /// per tree, with `nr_parameter / 4096` pairs of trees, in round 0's
    /// commit stage.
    pub fn setup(nr_real: u32, nr_sim: u32, nr_sybil: u32, nr_parameter: u32) -> (s: Self)
        requires
            nr_real + nr_sim <= 0x8000_0000,
            nr_real + nr_sim + nr_sybil > 1,
        ensures
            s.wf(),
            s.state == (STAGE::Commit, 0u32),
            s.nr_parameter == nr_parameter,
            s.mc.len() == nr_parameter / 4096,
            forall|i: int|
                0 <= i < s.mc.len() ==> {
                    &&& (#[trigger] s.mc@[i]).nr_real == nr_real + nr_sim
                    &&& s.mc@[i].nr_sybil == nr_sybil
                    &&& s.mc@[i].commit_array.len() == 0
                    &&& s.ms@[i].summation_array.len() == 0
                    &&& s.ms@[i].nr_non_leaf == (if nr_real + nr_sim == 0 { 1 } else { 2 * (nr_real + nr_sim) - 1 })
                },
    {
        let nr_ct = nr_parameter / 4096;
        let n = nr_real + nr_sim;
        let mut mc: Vec<McTree> = Vec::new();
        let mut ms: Vec<MsTree> = Vec::new();
        let mut i: u32 = 0;
        while i < nr_ct
            invariant
                n == nr_real + nr_sim,
                n <= 0x8000_0000,
                n + nr_sybil > 1,
                i <= nr_ct,
                mc.len() == i,
                ms.len() == i,
                forall|k: int|
                    0 <= k < i ==> {
                        &&& (#[trigger] mc@[k]).nr_real == n
                        &&& mc@[k].nr_sybil == nr_sybil
                        &&& mc@[k].commit_array.len() == 0
                        &&& mc@[k].mc is None
                        &&& ms@[k].nr_real == n
                        &&& ms@[k].nr_sybil == nr_sybil
                        &&& ms@[k].summation_array.len() == 0
                        &&& ms@[k].ms is None
                        &&& ms@[k].nr_non_leaf == (if n == 0 { 1 } else { 2 * n - 1 })
                    },
            decreases nr_ct - i,
        {
            mc.push(McTree::new(n, nr_sybil));
            ms.push(MsTree::new(n, nr_sybil));
            i = i + 1;
        }
        Server { mc, ms, state: (STAGE::Commit, 0), nr_parameter }
    }

    /// A participant's commitments, one per ciphertext, in the commit stage:
    /// commitment `i` joins tree `i`, and each tree that now holds all its
    /// participants is built. The stage moves on to data when the last tree
    /// the request touched was built. Refused where a tree is missing or full.
    pub fn aggregate_commit(&mut self, rsa_pk: &Vec<u8>, commitment: &Vec<[u8; 32]>) -> (o: Outcome)
        requires
            old(self).wf(),
        ensures
            final(self).wf(),
            final(self).nr_parameter == old(self).nr_parameter,
            final(self).ms == old(self).ms,
            final(self).mc.len() == old(self).mc.len(),
            old(self).state.0 != STAGE::Commit ==> o == Outcome::WrongStage && *final(self) == *old(self),
            old(self).state.0 == STAGE::Commit && !commit_fits(old(self).mc@, commitment.len() as int) ==> o
                == Outcome::Refused && *final(self) == *old(self),
            old(self).state.0 == STAGE::Commit && commit_fits(old(self).mc@, commitment.len() as int) ==> {
                let n = commitment.len() as int;
                let done = n > 0 && old(self).mc@[n - 1].commit_array.len() + 1 >= old(self).mc@[n - 1].nr_real;
                &&& o == (if done { Outcome::Advanced } else { Outcome::Accepted })
                &&& final(self).state == (if done { (STAGE::Data, old(self).state.1) } else { old(self).state })
                &&& forall|i: int| n <= i < old(self).mc.len() ==> #[trigger] final(self).mc@[i] == old(self).mc@[i]
                &&& forall|i: int|
                    0 <= i < n ==> {
                        let t = #[trigger] final(self).mc@[i];
                        let t0 = old(self).mc@[i];
                        &&& t.nr_real == t0.nr_real
                        &&& t.nr_sybil == t0.nr_sybil
                        &&& exists|e: CommitEntry|
                            e.rsa_pk@ == rsa_pk@ && e.hash == commitment@[i] && t.commit_array@.to_multiset()
                                == #[trigger] t0.commit_array@.push(e).to_multiset()
                        &&& (t0.commit_array.len() + 1 >= t0.nr_real <==> t.mc is Some && t.is_built())
                    }
            },
    {
        if self.state.0 != STAGE::Commit {
            return Outcome::WrongStage;
        }
        let n = commitment.len();
        if n > self.mc.len() {
            return Outcome::Refused;
        }
        if !all_have_room(&self.mc, n) {
            return Outcome::Refused;
        }
        let ghost old_mc = self.mc@;
        let mut flag = false;
        let mut i: usize = 0;
        while i < n
            invariant
                n == commitment.len(),
                n <= old_mc.len(),
                self.mc.len() == old_mc.len(),
                self.ms == old(self).ms,
                self.state == old(self).state,
                self.nr_parameter == old(self).nr_parameter,
                old_mc == old(self).mc@,
                old(self).wf(),
                commit_fits(old_mc, n as int),
                i <= n,
                i > 0 ==> flag == (old_mc[i - 1].commit_array.len() + 1 >= old_mc[i - 1].nr_real),
                i == 0 ==> !flag,
                forall|j: int| i <= j < old_mc.len() ==> #[trigger] self.mc@[j] == old_mc[j],
                forall|j: int|
                    0 <= j < i ==> {
                        let t = #[trigger] self.mc@[j];
                        let t0 = old_mc[j];
                        &&& t.nr_real == t0.nr_real
                        &&& t.nr_sybil == t0.nr_sybil
                        &&& exists|e: CommitEntry|
                            e.rsa_pk@ == rsa_pk@ && e.hash == commitment@[j] && t.commit_array@.to_multiset()
                                == #[trigger] t0.commit_array@.push(e).to_multiset()
                        &&& (t0.commit_array.len() + 1 >= t0.nr_real <==> t.mc is Some && t.is_built())
                        &&& (t.mc is Some ==> t.is_built())
                        &&& (t.mc is Some ==> t.commit_array.len() >= t.nr_real)
                    },
            decreases n - i,
        {
            let e = CommitEntry { rsa_pk: crate::aggregation::node::copy_bytes(rsa_pk), hash: commitment[i] };
            let ghost e_spec = e;
            let ghost t0 = self.mc@[i as int];
            assert(t0 == old_mc[i as int]);
            assert(t0.commit_array.len() < t0.nr_real);
            assert(t0.nr_real + t0.nr_sybil > 1);
            self.mc[i].insert_node(e);
            flag = self.mc[i].gen_tree();
            proof {
                let t = self.mc@[i as int];
                assert(t.commit_array@.to_multiset() == t0.commit_array@.push(e_spec).to_multiset());
                assert(e_spec.rsa_pk@ == rsa_pk@ && e_spec.hash == commitment@[i as int]
                    && t.commit_array@.to_multiset() == t0.commit_array@.push(e_spec).to_multiset());
            }
            i = i + 1;
        }
        if flag {
            self.state = (STAGE::Data, self.state.1);
            Outcome::Advanced
        } else {
            Outcome::Accepted
        }
    }
}


impl Server {
    /// A participant's upload in the data stage, one ciphertext per tree:
    /// leaf `i` joins summation tree `i`, and each tree that now holds all
    /// its participants is built, its root then holding the sums of all its
    /// leaves. The stage moves on to verify when the last tree the request
    /// touched was built. Refused where the upload does not fit the trees.
    pub fn aggregate_data(
        &mut self,
        rsa_pk: &Vec<u8>,
        c0: &Vec<Vec<i128>>,
        c1: &Vec<Vec<i128>>,
        nonce: &Vec<[u8; 16]>,
        proofs: &Vec<Vec<u8>>,
    ) -> (o: Outcome)
        requires
            old(self).wf(),
        ensures
            final(self).wf(),
            final(self).nr_parameter == old(self).nr_parameter,
            final(self).mc == old(self).mc,
            final(self).ms.len() == old(self).ms.len(),
            old(self).state.0 != STAGE::Data ==> o == Outcome::WrongStage && *final(self) == *old(self),
            old(self).state.0 == STAGE::Data && !data_fits(old(self).ms@, c0@, c1@, proofs.len() as int, nonce.len() as int)
                ==> o == Outcome::Refused && *final(self) == *old(self),
            old(self).state.0 == STAGE::Data && data_fits(old(self).ms@, c0@, c1@, proofs.len() as int, nonce.len() as int)
                ==> {
                let n = nonce.len() as int;
                let done = n > 0 && old(self).ms@[n - 1].summation_array.len() + 1 >= old(self).ms@[n - 1].nr_real
                    && final(self).ms@[n - 1].ms is Some;
                &&& o == (if done { Outcome::Advanced } else { Outcome::Accepted })
                &&& final(self).state == (if done { (STAGE::Verify, old(self).state.1) } else { old(self).state })
                &&& forall|i: int| n <= i < old(self).ms.len() ==> #[trigger] final(self).ms@[i] == old(self).ms@[i]
                &&& forall|i: int|
                    0 <= i < n ==> {
                        let t = #[trigger] final(self).ms@[i];
                        let t0 = old(self).ms@[i];
                        let m = t0.summation_array.len() + 1;
                        &&& t.nr_real == t0.nr_real
                        &&& t.nr_sybil == t0.nr_sybil
                        &&& t.nr_non_leaf == t0.nr_non_leaf
                        &&& exists|l: SummationLeaf|
                            uploaded_leaf(l, rsa_pk@, c0@[i]@, c1@[i]@, nonce@[i], proofs@[i]@) && {
                                let leaves = #[trigger] t0.summation_array@.push(SummationEntry::Leaf(l));
                                if m >= t0.nr_real {
                                    t.built_from(leaves, t.ms is Some)
                                } else {
                                    t.summation_array@ == leaves && t.ms is None
                                }
                            }
                    }
            },
    {
        if self.state.0 != STAGE::Data {
            return Outcome::WrongStage;
        }
        let n = nonce.len();
        if !data_fits_exec(&self.ms, c0, c1, proofs.len(), n) {
            return Outcome::Refused;
        }
        let ghost old_ms = self.ms@;
        let mut flag = false;
        let mut i: usize = 0;
        while i < n
            invariant
                n == nonce.len(),
                self.ms.len() == old_ms.len(),
                self.mc == old(self).mc,
                self.state == old(self).state,
                self.nr_parameter == old(self).nr_parameter,
                old_ms == old(self).ms@,
                old(self).wf(),
                data_fits(old_ms, c0@, c1@, proofs.len() as int, n as int),
                i <= n,
                i > 0 ==> flag == (old_ms[i - 1].summation_array.len() + 1 >= old_ms[i - 1].nr_real
                    && self.ms@[i - 1].ms is Some),
                i == 0 ==> !flag,
                forall|j: int| i <= j < old_ms.len() ==> #[trigger] self.ms@[j] == old_ms[j],
                forall|j: int|
                    0 <= j < i ==> {
                        let t = #[trigger] self.ms@[j];
                        let t0 = old_ms[j];
                        let m = t0.summation_array.len() + 1;
                        &&& t.nr_real == t0.nr_real
                        &&& t.nr_sybil == t0.nr_sybil
                        &&& t.nr_non_leaf == t0.nr_non_leaf
                        &&& t.is_ready()
                        &&& (t.ms is None ==> forall|q: int|
                            0 <= q < t.summation_array.len() ==> (#[trigger] t.summation_array@[q]) is Leaf)
                        &&& exists|l: SummationLeaf|
                            uploaded_leaf(l, rsa_pk@, c0@[j]@, c1@[j]@, nonce@[j], proofs@[j]@) && {
                                let leaves = #[trigger] t0.summation_array@.push(SummationEntry::Leaf(l));
                                if m >= t0.nr_real {
                                    t.built_from(leaves, t.ms is Some)
                                } else {
                                    t.summation_array@ == leaves && t.ms is None
                                }
                            }
                    },
            decreases n - i,
        {
            let leaf = SummationLeaf::from_ct(
                crate::aggregation::node::copy_bytes(rsa_pk),
                crate::aggregation::node::copy_i128s(&c0[i]),
                crate::aggregation::node::copy_i128s(&c1[i]),
                nonce[i],
                crate::aggregation::node::copy_bytes(&proofs[i]),
            );
            let ghost l = leaf;
            let ghost t0 = self.ms@[i as int];
            let ghost leaves = t0.summation_array@.push(SummationEntry::Leaf(l));
            proof {
                assert(t0 == old_ms[i as int]);
                assert(old(self).mc@[i as int].nr_real == old(self).ms@[i as int].nr_real);
                assert(t0.is_ready());
                if t0.summation_array.len() + 1 >= t0.nr_real {
                    tr::lemma_fits_push(t0.summation_array@, l, t0.nr_sybil);
                } else {
                    assert(t0.ms is None);
                }
            }
            self.ms[i].insert_node(leaf);
            flag = self.ms[i].gen_tree();
            proof {
                let t = self.ms@[i as int];
                let m = t0.summation_array.len() + 1;
                if m >= t0.nr_real {
                    if flag {
                        assert(t.summation_array@.len() == 2 * m - 1);
                        assert(t.leaf_count() == m);
                    } else {
                        assert forall|q: int| 0 <= q < t.summation_array.len() implies (#[trigger] t.summation_array@[q]) is Leaf by {
                            assert(t.summation_array@.subrange(0, m)[q] == t.summation_array@[q]);
                            assert(tr::usable_leaf(t.summation_array@.subrange(0, m)[q]));
                        }
                    }
                } else {
                    assert forall|q: int| 0 <= q < t.summation_array.len() implies (#[trigger] t.summation_array@[q]) is Leaf by {
                        if q < t0.summation_array.len() {
                            assert(t.summation_array@[q] == t0.summation_array@[q]);
                        }
                    }
                }
                assert(uploaded_leaf(l, rsa_pk@, c0@[i as int]@, c1@[i as int]@, nonce@[i as int], proofs@[i as int]@));
            }
            i = i + 1;
        }
        if flag {
            self.state = (STAGE::Verify, self.state.1);
            Outcome::Advanced
        } else {
            Outcome::Accepted
        }
    }

    /// The end of a round, once the committee is done: from the verify
    /// stage, every tree is emptied and the next round's commit stage
    /// begins; in any other stage nothing happens. Reports whether it moved.
    pub fn finish_round(&mut self) -> (moved: bool)
        requires
            old(self).wf(),
            old(self).state.0 == STAGE::Verify ==> old(self).state.1 < u32::MAX,
        ensures
            final(self).wf(),
            moved == (old(self).state.0 == STAGE::Verify),
            !moved ==> *final(self) == *old(self),
            moved ==> {
                &&& final(self).state == (STAGE::Commit, (old(self).state.1 + 1) as u32)
                &&& final(self).nr_parameter == old(self).nr_parameter
                &&& final(self).mc.len() == old(self).mc.len()
                &&& forall|i: int|
                    0 <= i < final(self).mc.len() ==> {
                        &&& (#[trigger] final(self).mc@[i]).commit_array.len() == 0
                        &&& final(self).mc@[i].mc is None
                        &&& final(self).mc@[i].nr_real == old(self).mc@[i].nr_real
                        &&& final(self).mc@[i].nr_sybil == old(self).mc@[i].nr_sybil
                        &&& final(self).ms@[i].summation_array.len() == 0
                        &&& final(self).ms@[i].ms is None
                        &&& final(self).ms@[i].nr_real == old(self).ms@[i].nr_real
                        &&& final(self).ms@[i].nr_sybil == old(self).ms@[i].nr_sybil
                    }
            },
    {
        if self.state.0 != STAGE::Verify {
            return false;
        }
        let n = self.mc.len();
        let mut i: usize = 0;
        while i < n
            invariant
                n == self.mc.len(),
                self.ms.len() == n,
                old(self).mc.len() == n,
                old(self).wf(),
                self.state == old(self).state,
                self.nr_parameter == old(self).nr_parameter,
                i <= n,
                forall|j: int| i <= j < n ==> #[trigger] self.mc@[j] == old(self).mc@[j],
                forall|j: int| i <= j < n ==> #[trigger] self.ms@[j] == old(self).ms@[j],
                forall|j: int|
                    0 <= j < i ==> {
                        &&& (#[trigger] self.mc@[j]).commit_array.len() == 0
                        &&& self.mc@[j].mc is None
                        &&& self.mc@[j].nr_real == old(self).mc@[j].nr_real
                        &&& self.mc@[j].nr_sybil == old(self).mc@[j].nr_sybil
                        &&& self.ms@[j].summation_array.len() == 0
                        &&& self.ms@[j].ms is None
                        &&& self.ms@[j].nr_real == old(self).ms@[j].nr_real
                        &&& self.ms@[j].nr_sybil == old(self).ms@[j].nr_sybil
                        &&& self.ms@[j].nr_non_leaf == old(self).ms@[j].nr_non_leaf
                    },
            decreases n - i,
        {
            self.mc[i].clear();
            self.ms[i].clear();
            i = i + 1;
        }
        self.state = (STAGE::Commit, self.state.1 + 1);
        true
    }
}


/// The position that a leaf lookup of `id` reads: `id` itself among the
/// first `nr_real`, else `id % nr_real`.
pub open spec fn leaf_index(nr_real: u32, id: u32) -> int {
    if id >= nr_real { (id % nr_real) as int } else { id as int }
}

/// A leaf lookup of `id` in an array of `len` entries stays inside it.
pub open spec fn leaf_lookup_ok(nr_real: u32, len: int, id: u32) -> bool {
    &&& id >= nr_real ==> nr_real > 0 && id % nr_real < len
    &&& id < nr_real ==> id < len
}

/// The position that a non-leaf lookup of `id` reads.
pub open spec fn nonleaf_index(t: MsTree, id: u32) -> int {
    let total = t.nr_real + t.nr_non_leaf;
    if id < t.nr_real || id >= total { (id as int) % total } else { id as int }
}

/// A non-leaf lookup of `id` stays inside the array.
pub open spec fn nonleaf_lookup_ok(t: MsTree, id: u32) -> bool {
    &&& t.nr_real + t.nr_non_leaf <= u32::MAX
    &&& t.nr_real + t.nr_non_leaf > 0
    &&& nonleaf_index(t, id) < t.summation_array.len()
}

/// The summation tree is built and has an item `id`.
pub open spec fn ms_proof_ok(t: MsTree, id: u32) -> bool {
    t.ms is Some && id < mk::merkle_items(t.ms->0).len()
}

/// The commitment tree is built and has an item `id`.
pub open spec fn mc_proof_ok(t: McTree, id: u32) -> bool {
    t.mc is Some && id < mk::merkle_items(t.mc->0).len()
}

/// The lookups for leaf `vinit + i` succeed.
pub open spec fn leaf_slot_ok(mc: McTree, ms: MsTree, vinit: u32, i: int) -> bool {
    let id = (vinit + i) as u32;
    &&& leaf_lookup_ok(ms.nr_real, ms.summation_array.len() as int, id)
    &&& ms.summation_array@[leaf_index(ms.nr_real, id)] is Leaf ==> {
        &&& mc_proof_ok(mc, id)
        &&& ms_proof_ok(ms, id)
        &&& leaf_lookup_ok(mc.nr_real, mc.commit_array.len() as int, id)
    }
}

/// The lookups for leaf `vinit + i` succeed and find a leaf.
pub open spec fn leaf_slot_done(mc: McTree, ms: MsTree, vinit: u32, i: int) -> bool {
    let id = (vinit + i) as u32;
    &&& leaf_lookup_ok(ms.nr_real, ms.summation_array.len() as int, id)
    &&& ms.summation_array@[leaf_index(ms.nr_real, id)] is Leaf
    &&& mc_proof_ok(mc, id)
    &&& ms_proof_ok(ms, id)
    &&& leaf_lookup_ok(mc.nr_real, mc.commit_array.len() as int, id)
}

/// Entries `2i` and `2i + 1` of an answer: the commitment of leaf
/// `vinit + i` with its proof, then the leaf with its proof.
pub open spec fn leaf_slot_matches(row: Seq<(SummationEntry, MerkleProof)>, mc: McTree, ms: MsTree, vinit: u32, i: int) -> bool {
    let id = (vinit + i) as u32;
    let c = row[2 * i].0;
    let ck = leaf_index(mc.nr_real, id);
    &&& c is Commit
    &&& c->Commit_0.rsa_pk@ == mc.commit_array@[ck].rsa_pk@
    &&& c->Commit_0.hash == mc.commit_array@[ck].hash
    &&& (row[2 * i].1.lemma@, row[2 * i].1.path@) == mk::merkle_proof_of(mk::merkle_items(mc.mc->0), id as int)
    &&& tr::entry_copy(row[2 * i + 1].0, ms.summation_array@[leaf_index(ms.nr_real, id)])
    &&& (row[2 * i + 1].1.lemma@, row[2 * i + 1].1.path@) == mk::merkle_proof_of(mk::merkle_items(ms.ms->0), id as int)
    &&& mk::proof_ok(row[2 * i].1)
    &&& mk::proof_ok(row[2 * i + 1].1)
}

/// Every lookup that the answer for one ciphertext makes succeeds: the six
/// leaves from `vinit` on, with their commitments and proofs, and the asked
/// non-leaves with their proofs.
pub open spec fn row_ok(mc: McTree, ms: MsTree, vinit: u32, ids: Seq<u32>) -> bool {
    &&& vinit + 5 <= u32::MAX
    &&& forall|i: int| 0 <= i < 6 ==> #[trigger] leaf_slot_ok(mc, ms, vinit, i)
    &&& forall|j: int| 0 <= j < ids.len() ==> ms_proof_ok(ms, #[trigger] ids[j]) && nonleaf_lookup_ok(ms, ids[j])
}

/// The answer for one ciphertext: for each of the six leaves from `vinit`
/// on, its commitment with the commitment tree's proof, then the leaf with
/// the summation tree's proof; then each asked non-leaf with its proof.
pub open spec fn row_matches(row: Seq<(SummationEntry, MerkleProof)>, mc: McTree, ms: MsTree, vinit: u32, ids: Seq<u32>) -> bool {
    &&& row.len() == 12 + ids.len()
    &&& forall|i: int| 0 <= i < 6 ==> #[trigger] leaf_slot_matches(row, mc, ms, vinit, i)
    &&& forall|j: int|
        0 <= j < ids.len() ==> {
            &&& tr::entry_copy((#[trigger] row[12 + j]).0, ms.summation_array@[nonleaf_index(ms, ids[j])])
            &&& (row[12 + j].1.lemma@, row[12 + j].1.path@) == mk::merkle_proof_of(mk::merkle_items(ms.ms->0), ids[j] as int)
            &&& mk::proof_ok(row[12 + j].1)
        }
}

/// The ciphertext indices of `ct` below `m`, in order.
pub open spec fn kept(ct: Seq<usize>, m: int) -> Seq<usize>
    decreases ct.len(),
{
    if ct.len() == 0 {
        Seq::empty()
    } else {
        let p = kept(ct.drop_last(), m);
        if ct.last() < m { p.push(ct.last()) } else { p }
    }
}

impl Server {
    /// Whether the lookup of leaf `id` in summation tree `k` succeeds.
    fn leaf_lookup_exec(t: &MsTree, id: u32) -> (b: bool)
        ensures
            b == leaf_lookup_ok(t.nr_real, t.summation_array.len() as int, id),
    {
        if id >= t.nr_real {
            t.nr_real > 0 && ((id % t.nr_real) as usize) < t.summation_array.len()
        } else {
            (id as usize) < t.summation_array.len()
        }
    }

    /// The answer for ciphertext `k`, or `None` where a lookup would fail.
    fn build_row(&self, k: usize, vinit: u32, ids: &Vec<u32>) -> (r: Option<Vec<(SummationEntry, MerkleProof)>>)
        requires
            self.wf(),
            k < self.mc.len(),
        ensures
            r is Some <==> row_ok(self.mc@[k as int], self.ms@[k as int], vinit, ids@),
            r is Some ==> row_matches(r->0@, self.mc@[k as int], self.ms@[k as int], vinit, ids@),
    {
        let mc = &self.mc[k];
        let ms = &self.ms[k];
        proof {
            assert(self.mc@[k as int].nr_real == self.ms@[k as int].nr_real);
        }
        if vinit > u32::MAX - 5 {
            return None;
        }
        let mut row: Vec<(SummationEntry, MerkleProof)> = Vec::new();
        let mut i: u32 = 0;
        while i < 6
            invariant
                *mc == self.mc@[k as int],
                *ms == self.ms@[k as int],
                mc.mc is Some ==> mc.is_built(),
                ms.is_ready(),
                ms.ms is None ==> forall|q: int| 0 <= q < ms.summation_array.len() ==> (#[trigger] ms.summation_array@[q]) is Leaf,
                vinit + 5 <= u32::MAX,
                i <= 6,
                row@.len() == 2 * i,
                forall|t: int| 0 <= t < i ==> #[trigger] leaf_slot_done(*mc, *ms, vinit, t),
                forall|t: int| 0 <= t < i ==> #[trigger] leaf_slot_matches(row@, *mc, *ms, vinit, t),
            decreases 6 - i,
        {
            let id = vinit + i;
            if !Server::leaf_lookup_exec(ms, id) {
                assert(!leaf_slot_ok(*mc, *ms, vinit, i as int));
                return None;
            }
            let node = ms.get_leaf_node(id);
            let ghost li = leaf_index(ms.nr_real, id);
            proof {
                // a looked-up position always holds a leaf
                if ms.ms is Some {
                    assert(ms.is_built_over(ms.leaf_count()));
                    assert(li < ms.nr_real);
                    assert(tr::usable_leaf(ms.summation_array@[li]));
                }
                assert(ms.summation_array@[li] is Leaf);
                assert(node is Leaf);
            }
            let mc_ok = match &mc.mc {
                Some(_) => (id as u128) < (mc.commit_array.len() as u128) + (mc.nr_sybil as u128),
                None => false,
            };
            let ms_ok = match &ms.ms {
                Some(_) => (id as u128) < (ms.summation_array.len() as u128) + 2 * (ms.nr_sybil as u128),
                None => false,
            };
            let node_ok = if id >= mc.nr_real {
                mc.nr_real > 0 && ((id % mc.nr_real) as usize) < mc.commit_array.len()
            } else {
                (id as usize) < mc.commit_array.len()
            };
            if !mc_ok || !ms_ok || !node_ok {
                assert(!leaf_slot_ok(*mc, *ms, vinit, i as int));
                return None;
            }
            let ghost old_row = row@;
            let mc_proof = mc.get_proof_by_id(id);
            let ms_proof = ms.get_proof_by_id(id);
            let commit = mc.get_node(id);
            row.push((SummationEntry::Commit(commit), mc_proof));
            row.push((node, ms_proof));
            proof {
                assert(leaf_slot_done(*mc, *ms, vinit, i as int));
                assert(leaf_slot_matches(row@, *mc, *ms, vinit, i as int));
                assert forall|t: int| 0 <= t < i implies #[trigger] leaf_slot_matches(row@, *mc, *ms, vinit, t) by {
                    assert(leaf_slot_matches(old_row, *mc, *ms, vinit, t));
                }
            }
            i = i + 1;
        }
        let mut j: usize = 0;
        while j < ids.len()
            invariant
                *mc == self.mc@[k as int],
                *ms == self.ms@[k as int],
                mc.mc is Some ==> mc.is_built(),
                ms.is_ready(),
                vinit + 5 <= u32::MAX,
                j <= ids.len(),
                row@.len() == 12 + j,
                forall|t: int| 0 <= t < 6 ==> #[trigger] leaf_slot_done(*mc, *ms, vinit, t),
                forall|t: int| 0 <= t < 6 ==> #[trigger] leaf_slot_matches(row@, *mc, *ms, vinit, t),
                forall|t: int| 0 <= t < j ==> ms_proof_ok(*ms, #[trigger] ids@[t]) && nonleaf_lookup_ok(*ms, ids@[t]),
                forall|t: int|
                    0 <= t < j ==> {
                        &&& tr::entry_copy((#[trigger] row@[12 + t]).0, ms.summation_array@[nonleaf_index(*ms, ids@[t])])
                        &&& (row@[12 + t].1.lemma@, row@[12 + t].1.path@) == mk::merkle_proof_of(mk::merkle_items(ms.ms->0), ids@[t] as int)
                        &&& mk::proof_ok(row@[12 + t].1)
                    },
            decreases ids.len() - j,
        {
            let id = ids[j];
            let proof_ok = match &ms.ms {
                Some(_) => (id as u128) < (ms.summation_array.len() as u128) + 2 * (ms.nr_sybil as u128),
                None => false,
            };
            let total = ms.nr_real as u64 + ms.nr_non_leaf as u64;
            let lookup_ok = if total > u32::MAX as u64 || total == 0 {
                false
            } else if (id as u64) < ms.nr_real as u64 || id as u64 >= total {
                ((id as u64 % total) as usize) < ms.summation_array.len()
            } else {
                (id as usize) < ms.summation_array.len()
            };
            if !proof_ok || !lookup_ok {
                assert(!row_ok(*mc, *ms, vinit, ids@)) by {
                    assert(!(ms_proof_ok(*ms, ids@[j as int]) && nonleaf_lookup_ok(*ms, ids@[j as int])));
                }
                return None;
            }
            let p = ms.get_proof_by_id(id);
            let e = ms.get_nonleaf_node(id);
            let ghost old_row = row@;
            assert(ms_proof_ok(*ms, ids@[j as int]) && nonleaf_lookup_ok(*ms, ids@[j as int]));
            row.push((e, p));
            proof {
                assert forall|t: int| 0 <= t < 6 implies #[trigger] leaf_slot_matches(row@, *mc, *ms, vinit, t) by {
                    assert(leaf_slot_matches(old_row, *mc, *ms, vinit, t));
                }
            }
            j = j + 1;
        }
        proof {
            assert forall|t: int| 0 <= t < 6 implies #[trigger] leaf_slot_ok(*mc, *ms, vinit, t) by {
                assert(leaf_slot_done(*mc, *ms, vinit, t));
            }
        }
        Some(row)
    }

    /// The server's answer to a participant's check, in the verify stage:
    /// for each asked ciphertext index below the number of trees, in order,
    /// the entries and proofs that `row_matches` describes. Outside the
    /// verify stage the answer is empty. `None` where a lookup would fail.
    pub fn verify(&self, vinit: u32, non_leaf_id: &Vec<u32>, ct_id: &Vec<usize>) -> (r: Option<Vec<Vec<(SummationEntry, MerkleProof)>>>)
        requires
            self.wf(),
        ensures
            self.state.0 != STAGE::Verify ==> r is Some && r->0.len() == 0,
            self.state.0 == STAGE::Verify ==> {
                let ks = kept(ct_id@, self.mc.len() as int);
                &&& r is Some <==> forall|j: int|
                    0 <= j < ks.len() ==> row_ok(self.mc@[#[trigger] ks[j] as int], self.ms@[ks[j] as int], vinit, non_leaf_id@)
                &&& r is Some ==> r->0.len() == ks.len() && forall|j: int|
                    0 <= j < ks.len() ==> row_matches(
                        (#[trigger] r->0@[j])@,
                        self.mc@[ks[j] as int],
                        self.ms@[ks[j] as int],
                        vinit,
                        non_leaf_id@,
                    )
            },
    {
        let mut rows: Vec<Vec<(SummationEntry, MerkleProof)>> = Vec::new();
        if self.state.0 != STAGE::Verify {
            return Some(rows);
        }
        let mut x: usize = 0;
        while x < ct_id.len()
            invariant
                self.wf(),
                self.state.0 == STAGE::Verify,
                x <= ct_id.len(),
                rows_match(rows@, kept(ct_id@.subrange(0, x as int), self.mc.len() as int), self.mc@, self.ms@, vinit, non_leaf_id@),
            decreases ct_id.len() - x,
        {
            let ghost before = kept(ct_id@.subrange(0, x as int), self.mc.len() as int);
            assert(ct_id@.subrange(0, x + 1).drop_last() =~= ct_id@.subrange(0, x as int));
            let k = ct_id[x];
            let ghost rows0 = rows@;
            assert(rows_match(rows0, before, self.mc@, self.ms@, vinit, non_leaf_id@));
            if k < self.mc.len() {
                match self.build_row(k, vinit, non_leaf_id) {
                    Some(row) => {
                        let ghost row_v = row@;
                        rows.push(row);
                        proof {
                            let now = kept(ct_id@.subrange(0, x + 1), self.mc.len() as int);
                            assert(now == before.push(k));
                            assert(rows@[rows0.len() as int]@ == row_v);
                            assert forall|j: int| 0 <= j < rows.len() implies #[trigger] row_at_ok(rows@, now, self.mc@, self.ms@, vinit, non_leaf_id@, j) by {
                                if j < rows0.len() {
                                    assert(rows@[j] == rows0[j]);
                                    assert(now[j] == before[j]);
                                    assert(row_at_ok(rows0, before, self.mc@, self.ms@, vinit, non_leaf_id@, j));
                                } else {
                                    assert(j == before.len());
                                    assert(now[j] == k);
                                }
                            }
                            assert(rows0.len() == before.len());
                            assert(rows@.len() == now.len());
                            assert(rows_match(rows@, now, self.mc@, self.ms@, vinit, non_leaf_id@));
                        }
                    },
                    None => {
                        proof {
                            let ks = kept(ct_id@, self.mc.len() as int);
                            lemma_kept_prefix(ct_id@, self.mc.len() as int, x as int + 1);
                            assert(kept(ct_id@.subrange(0, x + 1), self.mc.len() as int) == before.push(k));
                            assert(kept(ct_id@.subrange(0, x + 1), self.mc.len() as int)[before.len() as int] == k);
                            assert(ks[before.len() as int] == k);
                            assert(!row_ok(self.mc@[ks[before.len() as int] as int], self.ms@[ks[before.len() as int] as int], vinit, non_leaf_id@));
                        }
                        return None;
                    },
                }
            } else {
                assert(kept(ct_id@.subrange(0, x + 1), self.mc.len() as int) == before);
            }
            x = x + 1;
        }
        proof {
            assert(ct_id@.subrange(0, ct_id.len() as int) =~= ct_id@);
            let ks = kept(ct_id@, self.mc.len() as int);
            assert(rows_match(rows@, ks, self.mc@, self.ms@, vinit, non_leaf_id@));
            assert forall|j: int| 0 <= j < ks.len() implies row_ok(self.mc@[#[trigger] ks[j] as int], self.ms@[ks[j] as int], vinit, non_leaf_id@)
                && row_matches(rows@[j]@, self.mc@[ks[j] as int], self.ms@[ks[j] as int], vinit, non_leaf_id@) by {
                assert(row_at_ok(rows@, ks, self.mc@, self.ms@, vinit, non_leaf_id@, j));
            }
        }
        Some(rows)
    }

    /// The model handed out for the next round: `nr_parameter` zero bytes.
    pub fn retrieve_model(&self) -> (m: Vec<u8>)
        ensures
            m@ == Seq::new(self.nr_parameter as nat, |i: int| 0u8),
    {
        let mut m: Vec<u8> = Vec::new();
        let mut i: u32 = 0;
        while i < self.nr_parameter
            invariant
                i <= self.nr_parameter,
                m@ == Seq::new(i as nat, |q: int| 0u8),
            decreases self.nr_parameter - i,
        {
            m.push(0u8);
            i = i + 1;
            assert(m@ =~= Seq::new(i as nat, |q: int| 0u8));
        }
        m
    }
}

/// `rows` answer the ciphertexts `ks`, one row each, every lookup
/// succeeding.
pub open spec fn rows_match(
    rows: Seq<Vec<(SummationEntry, MerkleProof)>>,
    ks: Seq<usize>,
    mc: Seq<McTree>,
    ms: Seq<MsTree>,
    vinit: u32,
    ids: Seq<u32>,
) -> bool {
    &&& rows.len() == ks.len()
    &&& forall|j: int| 0 <= j < rows.len() ==> #[trigger] row_at_ok(rows, ks, mc, ms, vinit, ids, j)
}

/// Row `j` answers ciphertext `ks[j]`.
pub open spec fn row_at_ok(
    rows: Seq<Vec<(SummationEntry, MerkleProof)>>,
    ks: Seq<usize>,
    mc: Seq<McTree>,
    ms: Seq<MsTree>,
    vinit: u32,
    ids: Seq<u32>,
    j: int,
) -> bool {
    &&& row_ok(mc[ks[j] as int], ms[ks[j] as int], vinit, ids)
    &&& row_matches(rows[j]@, mc[ks[j] as int], ms[ks[j] as int], vinit, ids)
}

/// `kept` of a prefix is a prefix of `kept`.
proof fn lemma_kept_prefix(ct: Seq<usize>, m: int, x: int)
    requires
        0 <= x <= ct.len(),
    ensures
        kept(ct.subrange(0, x), m).len() <= kept(ct, m).len(),
        forall|j: int| 0 <= j < kept(ct.subrange(0, x), m).len() ==> #[trigger] kept(ct.subrange(0, x), m)[j] == kept(ct, m)[j],
    decreases ct.len() - x,
{
    if x < ct.len() {
        lemma_kept_prefix(ct, m, x + 1);
        let sx1 = ct.subrange(0, x + 1);
        assert(sx1.drop_last() =~= ct.subrange(0, x));
        let a = kept(ct.subrange(0, x), m);
        let b = kept(sx1, m);
        assert(b == (if sx1.last() < m { a.push(sx1.last()) } else { a }));
        assert forall|j: int| 0 <= j < a.len() implies #[trigger] a[j] == kept(ct, m)[j] by {
            assert(a[j] == b[j]);
        }
    } else {
        assert(ct.subrange(0, x) =~= ct);
    }
}

/// `p` is the commitment tree's proof of a commitment keyed `pk`.
pub open spec fn mc_proves(t: McTree, pk: Seq<u8>, p: MerkleProof) -> bool {
    &&& t.mc is Some
    &&& exists|k: int|
        0 <= k < t.commit_array.len() && #[trigger] t.commit_array@[k].rsa_pk@ == pk
            && (p.lemma@, p.path@) == mk::merkle_proof_of(mk::merkle_items(t.mc->0), k)
}

/// The commitment tree is built and holds a commitment keyed `pk`.
pub open spec fn mc_holds(t: McTree, pk: Seq<u8>) -> bool {
    t.mc is Some && exists|k: int| 0 <= k < t.commit_array.len() && #[trigger] t.commit_array@[k].rsa_pk@ == pk
}

/// `p` is the summation tree's proof of a leaf keyed `pk`.
pub open spec fn ms_proves(t: MsTree, pk: Seq<u8>, p: MerkleProof) -> bool {
    &&& t.ms is Some
    &&& exists|k: int|
        0 <= k < t.nr_real && #[trigger] t.summation_array@[k].key() == pk
            && (p.lemma@, p.path@) == mk::merkle_proof_of(mk::merkle_items(t.ms->0), k)
}

/// The summation tree is built and holds a leaf keyed `pk` among its first
/// `nr_real` entries.
pub open spec fn ms_holds(t: MsTree, pk: Seq<u8>) -> bool {
    t.ms is Some && exists|k: int| 0 <= k < t.nr_real && #[trigger] t.summation_array@[k].key() == pk
}

impl Server {
    /// The proofs, one per commitment tree, of the commitments of the
    /// participant keyed `rsa_pk`; `None` where a tree is not built or holds
    /// no such commitment.
    pub fn get_mc_proof(&self, rsa_pk: &Vec<u8>) -> (r: Option<Vec<MerkleProof>>)
        requires
            self.wf(),
        ensures
            r is Some <==> forall|i: int| 0 <= i < self.mc.len() ==> mc_holds(#[trigger] self.mc@[i], rsa_pk@),
            r is Some ==> r->0.len() == self.mc.len() && forall|i: int|
                0 <= i < self.mc.len() ==> mc_proves(#[trigger] self.mc@[i], rsa_pk@, r->0@[i]),
    {
        let mut ret: Vec<MerkleProof> = Vec::new();
        let mut i: usize = 0;
        while i < self.mc.len()
            invariant
                self.wf(),
                i <= self.mc.len(),
                ret.len() == i,
                forall|j: int| 0 <= j < i ==> mc_proves(#[trigger] self.mc@[j], rsa_pk@, ret@[j]),
                forall|j: int| 0 <= j < i ==> mc_holds(#[trigger] self.mc@[j], rsa_pk@),
            decreases self.mc.len() - i,
        {
            let t = &self.mc[i];
            match t.find_proof(rsa_pk) {
                Some(p) => {
                    ret.push(p);
                },
                None => {
                    assert(!mc_holds(self.mc@[i as int], rsa_pk@));
                    return None;
                },
            }
            i = i + 1;
        }
        Some(ret)
    }

    /// The proofs, one per summation tree, of the leaves of the participant
    /// keyed `rsa_pk`; `None` where a tree is not built or holds no such
    /// leaf.
    pub fn get_ms_proof(&self, rsa_pk: &Vec<u8>) -> (r: Option<Vec<MerkleProof>>)
        requires
            self.wf(),
        ensures
            r is Some <==> forall|i: int| 0 <= i < self.ms.len() ==> ms_holds(#[trigger] self.ms@[i], rsa_pk@),
            r is Some ==> r->0.len() == self.ms.len() && forall|i: int|
                0 <= i < self.ms.len() ==> ms_proves(#[trigger] self.ms@[i], rsa_pk@, r->0@[i]),
    {
        let mut ret: Vec<MerkleProof> = Vec::new();
        let mut i: usize = 0;
        while i < self.ms.len()
            invariant
                self.wf(),
                i <= self.ms.len(),
                ret.len() == i,
                forall|j: int| 0 <= j < i ==> ms_proves(#[trigger] self.ms@[j], rsa_pk@, ret@[j]),
                forall|j: int| 0 <= j < i ==> ms_holds(#[trigger] self.ms@[j], rsa_pk@),
            decreases self.ms.len() - i,
        {
            let t = &self.ms[i];
            assert(self.mc@[i as int].nr_real == t.nr_real);
            match t.find_proof(rsa_pk) {
                Some(p) => {
                    ret.push(p);
                },
                None => {
                    assert(!ms_holds(self.ms@[i as int], rsa_pk@));
                    return None;
                },
            }
            i = i + 1;
        }
        Some(ret)
    }

    /// The proving key handed out: a single zero byte.
    pub fn retrieve_proving_key(&self) -> (k: Vec<u8>)
        ensures
            k@ == seq![0u8],
    {
        vec![0u8]
    }
}

} // verus!
