//! The Merkle authentication tree.
//!
//! A binary tree of fixed maximum depth over 32-byte leaf digests.  Level 0
//! holds the leaves; each higher level holds the pairwise hash of the level
//! below, an absent right sibling standing in as the all-zero digest; the
//! single node at the top level is the root.  `append` pushes a leaf and
//! recomputes the whole tree; `update` replaces a leaf in place and
//! recomputes only the path from that leaf to the root.

use vstd::prelude::*;
use vstd::arithmetic::power2::pow2;
use crate::poseidon::{hash_pair, spec_hash_pair};

verus! {

/// The all-zero digest standing in for an absent right sibling, and the
/// root of a structurally empty tree.
pub open spec fn zero_digest() -> Seq<u8> {
    Seq::new(32, |i: int| 0u8)
}

/// Number of nodes at level `i` of a tree with `n >= 1` leaves: halved,
/// rounding up, once per level.
pub open spec fn width_at(n: nat, i: nat) -> nat
    decreases i,
{
    if i == 0 {
        n
    } else {
        (width_at(n, (i - 1) as nat) + 1) / 2
    }
}

pub proof fn lemma_width_pos(n: nat, i: nat)
    requires
        n >= 1,
    ensures
        width_at(n, i) >= 1,
    decreases i,
{
    if i > 0 {
        lemma_width_pos(n, (i - 1) as nat);
    }
}

/// Widths shrink under the capacity: at level `i` a tree with at most
/// `pow2(e + i)` leaves has at most `pow2(e)` nodes.
pub proof fn lemma_width_capacity(n: nat, i: nat, e: nat)
    requires
        n <= pow2(e + i),
    ensures
        width_at(n, i) <= pow2(e),
    decreases i,
{
    vstd::arithmetic::power2::lemma_pow2_pos(e);
    if i > 0 {
        lemma_width_capacity(n, (i - 1) as nat, e + 1);
        assert(pow2(e + 1) == 2 * pow2(e)) by {
            vstd::arithmetic::power2::lemma_pow2_unfold(e + 1);
        }
    }
}

/// At full depth the tree has a single node.
pub proof fn lemma_width_one(n: nat, d: nat)
    requires
        1 <= n <= pow2(d),
    ensures
        width_at(n, d) == 1,
{
    lemma_width_capacity(n, d, 0);
    lemma_width_pos(n, d);
    assert(pow2(0) == 1) by {
        vstd::arithmetic::power2::lemma2_to64();
    }
}

/// The position of leaf `index`'s ancestor at level `l`.
pub open spec fn path_at(index: nat, l: nat) -> nat
    decreases l,
{
    if l == 0 {
        index
    } else {
        path_at(index, (l - 1) as nat) / 2
    }
}

/// A node's ancestor stays within the level widths.
pub proof fn lemma_path_in_width(index: nat, n: nat, l: nat)
    requires
        index < n,
    ensures
        path_at(index, l) < width_at(n, l),
    decreases l,
{
    if l > 0 {
        lemma_path_in_width(index, n, (l - 1) as nat);
    }
}

/// The parent digest over `level` for parent position `j`.
pub open spec fn parent_of(level: Seq<Seq<u8>>, j: int) -> Seq<u8> {
    spec_hash_pair(
        level[2 * j],
        if 2 * j + 1 < level.len() {
            level[2 * j + 1]
        } else {
            zero_digest()
        },
    )
}

/// The hash link from level `i` to the parent at position `j` holds.
pub open spec fn parent_link(lvs: Seq<Seq<Seq<u8>>>, i: int, j: int) -> bool {
    lvs[i + 1][j] == parent_of(lvs[i], j)
}

/// Bridge: the deep view of a digest is its view.
proof fn lemma_dv_digest(a: [u8; 32])
    ensures
        a.deep_view() == a@,
{
    assert(a.deep_view() =~= a@);
}

/// Bridge: the deep view of a level indexes to its digests' views.
proof fn lemma_dv_level(v: &Vec<[u8; 32]>)
    ensures
        v.deep_view().len() == v@.len(),
        forall|j: int| 0 <= j < v@.len() ==> #[trigger] v.deep_view()[j] == v@[j]@,
{
    assert forall|j: int| 0 <= j < v@.len() implies #[trigger] v.deep_view()[j] == v@[j]@ by {
        lemma_dv_digest(v@[j]);
    }
}

/// Bridge: the deep view of the level stack indexes to each level's deep
/// view.
proof fn lemma_dv_levels(v: &Vec<Vec<[u8; 32]>>)
    ensures
        v.deep_view().len() == v@.len(),
        forall|i: int| 0 <= i < v@.len() ==> #[trigger] v.deep_view()[i] == v@[i].deep_view(),
{
}

/// The Merkle authentication tree.
pub struct MerkleTree {
    max_depth: usize,
    levels: Vec<Vec<[u8; 32]>>,
}

impl MerkleTree {
    /// All levels as abstract sequences of digests; level 0 is the leaves,
    /// level `max_depth` the root level.
    pub closed spec fn lv(&self) -> Seq<Seq<Seq<u8>>> {
        self.levels.deep_view()
    }

    pub closed spec fn depth(&self) -> nat {
        self.max_depth as nat
    }

    pub open spec fn leaves(&self) -> Seq<Seq<u8>> {
        self.lv()[0]
    }

    pub open spec fn leaf_count(&self) -> nat {
        self.leaves().len()
    }

    /// Structural invariant: one level per depth, widths halving upward
    /// from the leaf count, and every hash link holding.
    pub open spec fn wf(&self) -> bool {
        &&& self.depth() <= 32
        &&& self.lv().len() == self.depth() + 1
        &&& self.leaf_count() <= pow2(self.depth())
        &&& forall|i: int|
            0 <= i <= self.depth() ==> #[trigger] self.lv()[i].len() == (if self.leaf_count() == 0 {
                0nat
            } else {
                width_at(self.leaf_count(), i as nat)
            })
        &&& forall|i: int, j: int|
            0 <= i < self.depth() && 0 <= j < self.lv()[i + 1].len() ==> #[trigger] parent_link(
                self.lv(),
                i,
                j,
            )
    }

    /// The root digest: the single top-level node, or the zero sentinel of
    /// a structurally empty tree.
    pub open spec fn spec_root(&self) -> Seq<u8> {
        if self.leaf_count() == 0 {
            zero_digest()
        } else {
            self.lv()[self.depth() as int][0]
        }
    }

    /// An empty tree of the given maximum depth.
    pub fn new(max_depth: usize) -> (r: MerkleTree)
        requires
            max_depth <= 32,
        ensures
            r.wf(),
            r.depth() == max_depth,
            r.leaf_count() == 0,
            r.spec_root() == zero_digest(),
    {
        let mut levels: Vec<Vec<[u8; 32]>> = Vec::new();
        let mut i: usize = 0;
        while i <= max_depth
            invariant
                i <= max_depth + 1,
                max_depth <= 32,
                levels.deep_view().len() == i,
                forall|k: int| 0 <= k < i ==> #[trigger] levels.deep_view()[k].len() == 0,
            decreases max_depth + 1 - i,
        {
            let ghost old_levels = levels;
            let empty: Vec<[u8; 32]> = Vec::new();
            levels.push(empty);
            proof {
                lemma_dv_levels(&levels);
                lemma_dv_levels(&old_levels);
                lemma_dv_level(&empty);
                assert(levels.deep_view() =~= old_levels.deep_view().push(empty.deep_view()));
            }
            i = i + 1;
        }
        MerkleTree { max_depth, levels }
    }

    /// The current root.
    pub fn root(&self) -> (r: [u8; 32])
        requires
            self.wf(),
        ensures
            r@ == self.spec_root(),
    {
        proof {
            lemma_dv_levels(&self.levels);
            lemma_dv_level(&self.levels[self.depth() as int]);
        }
        let top = &self.levels[self.max_depth];
        proof {
            assert(top.deep_view() == self.lv()[self.depth() as int]);
            assert(self.lv()[self.depth() as int].len() == (if self.leaf_count() == 0 {
                0nat
            } else {
                width_at(self.leaf_count(), self.depth())
            }));
        }
        if top.len() == 0 {
            let z = [0u8; 32];
            proof {
                assert(z@ =~= zero_digest());
                if self.leaf_count() != 0 {
                    lemma_width_pos(self.leaf_count(), self.depth());
                }
            }
            z
        } else {
            proof {
                if self.leaf_count() == 0 {
                    assert(top.deep_view().len() == 0);
                }
                assert(top.deep_view()[0] == top@[0]@);
            }
            top[0]
        }
    }

    /// Number of leaves currently in the tree.
    pub fn leaf_len(&self) -> (r: usize)
        requires
            self.wf(),
        ensures
            r == self.leaf_count(),
    {
        proof {
            lemma_dv_levels(&self.levels);
            lemma_dv_level(&self.levels[0]);
        }
        self.levels[0].len()
    }
}

/// Combine one level into the next: hash adjacent pairs, the zero digest
/// standing in for a missing right node.
fn combine_level(prev: &Vec<[u8; 32]>) -> (next: Vec<[u8; 32]>)
    ensures
        next.deep_view().len() == (prev.deep_view().len() + 1) / 2,
        forall|j: int|
            0 <= j < next.deep_view().len() ==> #[trigger] next.deep_view()[j] == parent_of(
                prev.deep_view(),
                j,
            ),
{
    let mut next: Vec<[u8; 32]> = Vec::new();
    let mut i: usize = 0;
    proof {
        lemma_dv_level(prev);
        lemma_dv_level(&next);
    }
    while i + 1 < prev.len()
        invariant
            i <= prev.len(),
            i % 2 == 0,
            prev.deep_view().len() == prev@.len(),
            forall|j: int| 0 <= j < prev@.len() ==> #[trigger] prev.deep_view()[j] == prev@[j]@,
            next.deep_view().len() == i / 2,
            forall|j: int|
                0 <= j < next.deep_view().len() ==> #[trigger] next.deep_view()[j] == parent_of(
                    prev.deep_view(),
                    j,
                ),
        decreases prev.len() - i,
    {
        let ghost old_next = next;
        let parent = hash_pair(&prev[i], &prev[i + 1]);
        next.push(parent);
        proof {
            lemma_dv_level(&next);
            lemma_dv_level(&old_next);
            assert(next.deep_view() =~= old_next.deep_view().push(parent@));
            assert(next.deep_view()[i as int / 2] == parent_of(prev.deep_view(), i as int / 2));
        }
        i = i + 2;
    }
    if i < prev.len() {
        // A lone last node: hash it with the zero digest.
        let ghost old_next = next;
        let z = [0u8; 32];
        proof {
            assert(z@ =~= zero_digest());
        }
        let parent = hash_pair(&prev[i], &z);
        next.push(parent);
        proof {
            lemma_dv_level(&next);
            lemma_dv_level(&old_next);
            assert(next.deep_view() =~= old_next.deep_view().push(parent@));
            assert(next.deep_view()[i as int / 2] == parent_of(prev.deep_view(), i as int / 2));
        }
    }
    next
}

/// Copy a level of digests.
fn copy_level(v: &Vec<[u8; 32]>) -> (r: Vec<[u8; 32]>)
    ensures
        r@ == v@,
        r.deep_view() == v.deep_view(),
{
    let mut r: Vec<[u8; 32]> = Vec::new();
    let mut i: usize = 0;
    while i < v.len()
        invariant
            i <= v@.len(),
            r@ == v@.take(i as int),
        decreases v.len() - i,
    {
        r.push(v[i]);
        proof {
            assert(v@.take(i + 1) =~= v@.take(i as int).push(v@[i as int]));
        }
        i = i + 1;
    }
    proof {
        assert(v@.take(v@.len() as int) =~= v@);
        assert(r.deep_view() =~= v.deep_view());
    }
    r
}

/// Widths never grow above the leaf count.
pub proof fn lemma_width_le(n: nat, i: nat)
    ensures
        width_at(n, i) <= n || width_at(n, i) <= 1,
    decreases i,
{
    if i > 0 {
        lemma_width_le(n, (i - 1) as nat);
    }
}

impl MerkleTree {
    /// Append a leaf and recompute every level above it; returns false and
    /// leaves the tree unchanged when the tree is full.
    pub fn append(&mut self, leaf: [u8; 32]) -> (r: bool)
        requires
            old(self).wf(),
        ensures
            final(self).wf(),
            final(self).depth() == old(self).depth(),
            r == (old(self).leaf_count() < pow2(old(self).depth())),
            r ==> final(self).leaves() == old(self).leaves().push(leaf@),
            !r ==> final(self).lv() == old(self).lv(),
    {
        // Capacity: one full bottom level of pow2(max_depth) leaves.
        let mut cap: u64 = 1;
        let mut k: usize = 0;
        proof {
            vstd::arithmetic::power2::lemma2_to64();
        }
        while k < self.max_depth
            invariant
                k <= self.max_depth <= 32,
                cap == pow2(k as nat),
                cap <= 0x1_0000_0000u64,
            decreases self.max_depth - k,
        {
            proof {
                vstd::arithmetic::power2::lemma2_to64();
                vstd::arithmetic::power2::lemma_pow2_unfold(k as nat + 1);
                if k + 1 < 32 {
                    vstd::arithmetic::power2::lemma_pow2_strictly_increases(k as nat + 1, 32);
                }
            }
            cap = cap * 2;
            k = k + 1;
        }
        proof {
            lemma_dv_levels(&self.levels);
            lemma_dv_level(&self.levels[0]);
        }
        let n = self.levels[0].len();
        if n as u64 >= cap {
            return false;
        }
        // Rebuild the whole tree over the extended leaf sequence.
        let mut lvl0 = copy_level(&self.levels[0]);
        lvl0.push(leaf);
        proof {
            lemma_dv_level(&lvl0);
            assert(lvl0.deep_view() =~= old(self).lv()[0].push(leaf@));
        }
        let ghost new_count = (n + 1) as nat;
        let mut new_levels: Vec<Vec<[u8; 32]>> = Vec::new();
        new_levels.push(lvl0);
        proof {
            lemma_dv_levels(&new_levels);
        }
        let mut i: usize = 0;
        while i < self.max_depth
            invariant
                self.max_depth <= 32,
                i <= self.max_depth,
                new_count == n + 1,
                1 <= new_count <= pow2(self.max_depth as nat),
                new_levels.deep_view().len() == i + 1,
                new_levels.deep_view()[0] == old(self).lv()[0].push(leaf@),
                forall|l: int|
                    0 <= l <= i ==> #[trigger] new_levels.deep_view()[l].len() == width_at(
                        new_count,
                        l as nat,
                    ),
                forall|l: int, j: int|
                    0 <= l < i && 0 <= j < new_levels.deep_view()[l + 1].len()
                        ==> #[trigger] parent_link(new_levels.deep_view(), l, j),
            decreases self.max_depth - i,
        {
            proof {
                lemma_dv_levels(&new_levels);
            }
            let next = combine_level(&new_levels[i]);
            let ghost before = new_levels.deep_view();
            let ghost nview = next.deep_view();
            new_levels.push(next);
            proof {
                lemma_dv_levels(&new_levels);
                assert(new_levels.deep_view() =~= before.push(nview));
                assert(nview.len() == (before[i as int].len() + 1) / 2);
                assert(width_at(new_count, i as nat + 1) == (width_at(new_count, i as nat) + 1)
                    / 2);
                assert forall|l: int, j: int|
                    0 <= l < i + 1 && 0 <= j < new_levels.deep_view()[l + 1].len()
                        implies #[trigger] parent_link(new_levels.deep_view(), l, j) by {
                    if l < i {
                        assert(parent_link(before, l, j));
                    } else {
                        assert(new_levels.deep_view()[l + 1] == nview);
                        assert(nview[j] == parent_of(before[l], j));
                    }
                }
            }
            i = i + 1;
        }
        self.levels = new_levels;
        proof {
            assert(self.leaf_count() == new_count);
            assert forall|l: int|
                0 <= l <= self.depth() implies #[trigger] self.lv()[l].len() == (
            if self.leaf_count() == 0 {
                0nat
            } else {
                width_at(self.leaf_count(), l as nat)
            }) by {}
        }
        true
    }
}


/// One entry of an inclusion proof: a sibling digest and whether that
/// sibling is the left child of the pair.
pub struct ProofStep {
    pub sibling: [u8; 32],
    pub is_left: bool,
}

/// The abstract content of a proof: one (digest, is-left) pair per entry.
pub open spec fn steps_view(v: Seq<ProofStep>) -> Seq<(Seq<u8>, bool)> {
    v.map_values(|s: ProofStep| (s.sibling@, s.is_left))
}

/// The position of the sibling of node `j`: determined purely by parity.
pub open spec fn sibling_of(j: nat) -> nat {
    if j % 2 == 0 {
        j + 1
    } else {
        (j - 1) as nat
    }
}

/// The proof entries from `level` up, for the ancestor `idx` of some leaf:
/// one entry per level where the sibling exists, none where it does not.
pub open spec fn proof_entries(
    lvs: Seq<Seq<Seq<u8>>>,
    d: nat,
    level: nat,
    idx: nat,
) -> Seq<(Seq<u8>, bool)>
    decreases d - level,
{
    if level >= d {
        Seq::empty()
    } else {
        let s = sibling_of(idx);
        let head: Seq<(Seq<u8>, bool)> = if s < lvs[level as int].len() {
            seq![(lvs[level as int][s as int], idx % 2 == 1)]
        } else {
            Seq::empty()
        };
        head + proof_entries(lvs, d, level + 1, idx / 2)
    }
}

/// Replay a proof from `level` up: consume one entry per level where the
/// sibling exists, hash with the zero digest where it does not, and demand
/// the entries' positions match the index's parity; `None` marks a proof
/// that does not fit the index at all.
pub open spec fn replay(
    lvs: Seq<Seq<Seq<u8>>>,
    d: nat,
    level: nat,
    idx: nat,
    cur: Seq<u8>,
    entries: Seq<(Seq<u8>, bool)>,
) -> Option<Seq<u8>>
    decreases d - level,
{
    if level >= d {
        if entries.len() == 0 {
            Some(cur)
        } else {
            None
        }
    } else {
        let s = sibling_of(idx);
        if s < lvs[level as int].len() {
            if entries.len() == 0 {
                None
            } else {
                let e = entries[0];
                if e.1 != (idx % 2 == 1) {
                    None
                } else {
                    let parent = if idx % 2 == 1 {
                        spec_hash_pair(e.0, cur)
                    } else {
                        spec_hash_pair(cur, e.0)
                    };
                    replay(lvs, d, level + 1, idx / 2, parent, entries.drop_first())
                }
            }
        } else {
            replay(lvs, d, level + 1, idx / 2, spec_hash_pair(cur, zero_digest()), entries)
        }
    }
}

impl MerkleTree {
    /// The inclusion proof for leaf `index`, leaf to root.
    pub open spec fn spec_proof(&self, index: nat) -> Seq<(Seq<u8>, bool)> {
        proof_entries(self.lv(), self.depth(), 0, index)
    }

    /// A proof replays to the root for the given leaf and index.
    pub open spec fn spec_verify(
        &self,
        entries: Seq<(Seq<u8>, bool)>,
        leaf: Seq<u8>,
        index: nat,
    ) -> bool {
        replay(self.lv(), self.depth(), 0, index, leaf, entries) == Some(self.spec_root())
    }

    /// Generate the inclusion proof for leaf `index`: at each level the
    /// sibling of the current ancestor, skipped where the level has no
    /// sibling for it.
    pub fn generate_proof(&self, index: usize) -> (r: Vec<ProofStep>)
        requires
            self.wf(),
            index < self.leaf_count(),
        ensures
            steps_view(r@) == self.spec_proof(index as nat),
    {
        let mut out: Vec<ProofStep> = Vec::new();
        let mut idx: usize = index;
        let mut level: usize = 0;
        proof {
            assert(steps_view(out@) + self.spec_proof(index as nat) =~= self.spec_proof(
                index as nat,
            ));
        }
        while level < self.max_depth
            invariant
                self.wf(),
                index < self.leaf_count(),
                level <= self.depth(),
                idx == path_at(index as nat, level as nat),
                idx < width_at(self.leaf_count(), level as nat),
                steps_view(out@) + proof_entries(self.lv(), self.depth(), level as nat, idx as nat)
                    == self.spec_proof(index as nat),
            decreases self.max_depth - level,
        {
            proof {
                lemma_dv_levels(&self.levels);
                lemma_dv_level(&self.levels[level as int]);
                lemma_path_in_width(index as nat, self.leaf_count(), level as nat);
            }
            let lvl = &self.levels[level];
            let sib: usize = if idx % 2 == 0 {
                idx + 1
            } else {
                idx - 1
            };
            let ghost entries_here = proof_entries(self.lv(), self.depth(), level as nat, idx as nat);
            if sib < lvl.len() {
                let ghost old_out = out@;
                out.push(ProofStep { sibling: lvl[sib], is_left: idx % 2 == 1 });
                proof {
                    assert(steps_view(out@) =~= steps_view(old_out).push(
                        (self.lv()[level as int][sib as int], idx % 2 == 1),
                    ));
                    assert(entries_here == seq![
                        (self.lv()[level as int][sib as int], (idx % 2 == 1)),
                    ] + proof_entries(self.lv(), self.depth(), level as nat + 1, idx as nat / 2));
                    assert((steps_view(old_out) + entries_here) =~= (steps_view(out@)
                        + proof_entries(
                        self.lv(),
                        self.depth(),
                        level as nat + 1,
                        idx as nat / 2,
                    )));
                }
            } else {
                proof {
                    assert(entries_here =~= Seq::<(Seq<u8>, bool)>::empty() + proof_entries(
                        self.lv(),
                        self.depth(),
                        level as nat + 1,
                        idx as nat / 2,
                    ));
                    assert(Seq::<(Seq<u8>, bool)>::empty() + proof_entries(
                        self.lv(),
                        self.depth(),
                        level as nat + 1,
                        idx as nat / 2,
                    ) =~= proof_entries(self.lv(), self.depth(), level as nat + 1, idx as nat / 2));
                }
            }
            idx = idx / 2;
            level = level + 1;
        }
        proof {
            assert(steps_view(out@) + Seq::<(Seq<u8>, bool)>::empty() =~= steps_view(out@));
        }
        out
    }

    /// Replay a proof for `(leaf, index)` and compare against the root,
    /// using the same parity rule as generation; absent siblings hash with
    /// the zero digest.
    pub fn verify_proof(&self, proof: &Vec<ProofStep>, leaf: [u8; 32], index: usize) -> (r: bool)
        requires
            self.wf(),
        ensures
            r == self.spec_verify(steps_view(proof@), leaf@, index as nat),
    {
        let mut cur: [u8; 32] = leaf;
        let mut idx: usize = index;
        let mut level: usize = 0;
        let mut k: usize = 0;
        proof {
            assert(steps_view(proof@).skip(0) =~= steps_view(proof@));
        }
        while level < self.max_depth
            invariant
                self.wf(),
                level <= self.depth(),
                k <= proof@.len(),
                replay(
                    self.lv(),
                    self.depth(),
                    0,
                    index as nat,
                    leaf@,
                    steps_view(proof@),
                ) == replay(
                    self.lv(),
                    self.depth(),
                    level as nat,
                    idx as nat,
                    cur@,
                    steps_view(proof@).skip(k as int),
                ),
            decreases self.max_depth - level,
        {
            proof {
                lemma_dv_levels(&self.levels);
                lemma_dv_level(&self.levels[level as int]);
            }
            let lvl = &self.levels[level];
            let sib: usize = if idx % 2 == 0 {
                if idx == usize::MAX {
                    // An index at the machine limit has no right sibling in
                    // any level a vector can hold.
                    proof {
                        assert(sibling_of(idx as nat) >= self.lv()[level as int].len());
                    }
                    cur = hash_pair(&cur, &zero32());
                    proof {
                        assert(steps_view(proof@).skip(k as int) =~= steps_view(proof@).skip(
                            k as int,
                        ));
                    }
                    idx = idx / 2;
                    level = level + 1;
                    continue ;
                }
                idx + 1
            } else {
                idx - 1
            };
            let ghost rem = steps_view(proof@).skip(k as int);
            if sib < lvl.len() {
                if k >= proof.len() {
                    proof {
                        assert(rem.len() == 0);
                    }
                    return false;
                }
                let step = &proof[k];
                let expect_left = idx % 2 == 1;
                proof {
                    assert(rem[0] == (proof@[k as int].sibling@, proof@[k as int].is_left));
                }
                if step.is_left != expect_left {
                    return false;
                }
                if expect_left {
                    cur = hash_pair(&step.sibling, &cur);
                } else {
                    cur = hash_pair(&cur, &step.sibling);
                }
                proof {
                    assert(rem.drop_first() =~= steps_view(proof@).skip(k as int + 1));
                }
                k = k + 1;
            } else {
                cur = hash_pair(&cur, &zero32());
            }
            idx = idx / 2;
            level = level + 1;
        }
        if k != proof.len() {
            proof {
                assert(steps_view(proof@).skip(k as int).len() != 0);
            }
            return false;
        }
        proof {
            assert(steps_view(proof@).skip(k as int).len() == 0);
        }
        let root = self.root();
        crate::records::digest_eq(&cur, &root)
    }
}

/// The all-zero digest as a value.
fn zero32() -> (z: [u8; 32])
    ensures
        z@ == zero_digest(),
{
    let z = [0u8; 32];
    proof {
        assert(z@ =~= zero_digest());
    }
    z
}


impl MerkleTree {
    /// Replaying the generated proof from any ancestor on the path leads
    /// back to the root.
    proof fn lemma_replay_from(&self, level: nat, idx: nat)
        requires
            self.wf(),
            self.leaf_count() >= 1,
            level <= self.depth(),
            idx < width_at(self.leaf_count(), level),
        ensures
            replay(
                self.lv(),
                self.depth(),
                level,
                idx,
                self.lv()[level as int][idx as int],
                proof_entries(self.lv(), self.depth(), level, idx),
            ) == Some(self.spec_root()),
        decreases self.depth() - level,
    {
        let lvs = self.lv();
        let d = self.depth();
        let n = self.leaf_count();
        if level >= d {
            lemma_width_one(n, d);
            assert(idx == 0);
            assert(proof_entries(lvs, d, level, idx).len() == 0);
        } else {
            let w = width_at(n, level);
            let w1 = width_at(n, level + 1);
            assert(lvs[level as int].len() == w);
            assert(lvs[level as int + 1].len() == w1);
            let s = sibling_of(idx);
            let parent_idx = idx / 2;
            assert(w1 == (w + 1) / 2);
            assert(parent_idx < w1);
            assert(parent_link(lvs, level as int, parent_idx as int));
            let entries = proof_entries(lvs, d, level, idx);
            let rest = proof_entries(lvs, d, level + 1, parent_idx);
            if s < w {
                assert(entries == seq![(lvs[level as int][s as int], idx % 2 == 1)] + rest);
                assert(entries.drop_first() =~= rest);
                if idx % 2 == 1 {
                    assert(2 * (parent_idx as int) == idx - 1 && 2 * (parent_idx as int) + 1
                        == idx);
                    assert(parent_of(lvs[level as int], parent_idx as int) == spec_hash_pair(
                        lvs[level as int][s as int],
                        lvs[level as int][idx as int],
                    ));
                } else {
                    assert(2 * (parent_idx as int) == idx && 2 * (parent_idx as int) + 1
                        == s);
                    assert(parent_of(lvs[level as int], parent_idx as int) == spec_hash_pair(
                        lvs[level as int][idx as int],
                        lvs[level as int][s as int],
                    ));
                }
                self.lemma_replay_from(level + 1, parent_idx);
            } else {
                assert(idx % 2 == 0);
                assert(entries =~= rest);
                assert(2 * (parent_idx as int) == idx && !(2 * (parent_idx as int) + 1 < w));
                assert(parent_of(lvs[level as int], parent_idx as int) == spec_hash_pair(
                    lvs[level as int][idx as int],
                    zero_digest(),
                ));
                self.lemma_replay_from(level + 1, parent_idx);
            }
        }
    }

    /// Proof round trip: for every leaf of a well-formed tree, the
    /// generated inclusion proof verifies against the root for that leaf
    /// and index.
    pub proof fn lemma_proof_round_trip(&self, index: nat)
        requires
            self.wf(),
            index < self.leaf_count(),
        ensures
            self.spec_verify(self.spec_proof(index), self.leaves()[index as int], index),
    {
        self.lemma_replay_from(0, index);
    }
}


impl MerkleTree {
    /// Overwrite one node; everything else stays.
    fn set_node(&mut self, level: usize, j: usize, v: [u8; 32])
        requires
            level < old(self).lv().len(),
            j < old(self).lv()[level as int].len(),
        ensures
            final(self).lv() == old(self).lv().update(
                level as int,
                old(self).lv()[level as int].update(j as int, v@),
            ),
            final(self).depth() == old(self).depth(),
    {
        proof {
            lemma_dv_levels(&self.levels);
            lemma_dv_level(&self.levels[level as int]);
        }
        let inner = &mut self.levels[level];
        inner[j] = v;
        proof {
            lemma_dv_levels(&self.levels);
            lemma_dv_level(&self.levels[level as int]);
            assert(self.lv()[level as int] =~= old(self).lv()[level as int].update(j as int, v@));
            assert(self.lv() =~= old(self).lv().update(
                level as int,
                old(self).lv()[level as int].update(j as int, v@),
            ));
        }
    }

    /// Read one node.
    fn get_node(&self, level: usize, j: usize) -> (r: [u8; 32])
        requires
            level < self.lv().len(),
            j < self.lv()[level as int].len(),
        ensures
            r@ == self.lv()[level as int][j as int],
    {
        proof {
            lemma_dv_levels(&self.levels);
            lemma_dv_level(&self.levels[level as int]);
        }
        self.levels[level][j]
    }

    /// Width of one level.
    fn level_len(&self, level: usize) -> (r: usize)
        requires
            level < self.lv().len(),
        ensures
            r == self.lv()[level as int].len(),
    {
        proof {
            lemma_dv_levels(&self.levels);
            lemma_dv_level(&self.levels[level as int]);
        }
        self.levels[level].len()
    }

    /// Replace leaf `index` in place and recompute only the path from that
    /// leaf to the root; a no-op when `index` is out of bounds.  Every node
    /// off the leaf's path keeps its digest.
    pub fn update(&mut self, index: usize, leaf: [u8; 32])
        requires
            old(self).wf(),
        ensures
            final(self).wf(),
            final(self).depth() == old(self).depth(),
            index >= old(self).leaf_count() ==> final(self).lv() == old(self).lv(),
            index < old(self).leaf_count() ==> final(self).leaves() == old(self).leaves().update(
                index as int,
                leaf@,
            ),
            final(self).leaf_count() == old(self).leaf_count(),
            forall|l: int|
                0 <= l < final(self).lv().len() ==> #[trigger] final(self).lv()[l].len() == old(
                    self,
                ).lv()[l].len(),
            forall|l: int, k: int|
                0 <= l < final(self).lv().len() && 0 <= k < final(self).lv()[l].len() && k
                    != path_at(index as nat, l as nat) ==> #[trigger] final(self).lv()[l][k] == old(
                    self,
                ).lv()[l][k],
    {
        proof {
            lemma_dv_levels(&self.levels);
            lemma_dv_level(&self.levels[0]);
        }
        let n = self.levels[0].len();
        if index >= n {
            return ;
        }
        let ghost old_lv = self.lv();
        let ghost nn = old(self).leaf_count();
        let ghost d = self.depth();
        self.set_node(0, index, leaf);
        let mut j: usize = index;
        let mut level: usize = 0;
        proof {
            lemma_path_in_width(index as nat, nn, 0);
            assert(self.lv()[0] =~= old_lv[0].update(index as int, leaf@));
            assert forall|l: int, k: int|
                0 <= l < d && 0 <= k < self.lv()[l + 1].len() && !(l == 0 && k == path_at(
                    index as nat,
                    1,
                )) implies #[trigger] parent_link(self.lv(), l, k) by {
                assert(parent_link(old_lv, l, k));
                if l == 0 {
                    assert(self.lv()[l + 1][k] == old_lv[l + 1][k]);
                    assert(k != index as int / 2);
                    assert(2 * k != index && 2 * k + 1 != index);
                    assert(parent_of(self.lv()[0], k) == parent_of(old_lv[0], k));
                } else {
                    assert(self.lv()[l] == old_lv[l] && self.lv()[l + 1] == old_lv[l + 1]);
                }
            }
        }
        while level < self.max_depth
            invariant
                0 < self.lv().len(),
                self.lv().len() == d + 1,
                self.depth() == d,
                d == old(self).depth(),
                d <= 32,
                level <= d,
                nn == old(self).leaf_count(),
                1 <= nn <= pow2(d),
                old(self).wf(),
                old_lv == old(self).lv(),
                index < nn,
                j == path_at(index as nat, level as nat),
                j < width_at(nn, level as nat),
                forall|l: int|
                    0 <= l <= d ==> #[trigger] self.lv()[l].len() == width_at(nn, l as nat),
                self.lv()[0] == old_lv[0].update(index as int, leaf@),
                forall|l: int, k: int|
                    0 <= l <= d && 0 <= k < self.lv()[l].len() && k != path_at(index as nat, l as nat)
                        ==> #[trigger] self.lv()[l][k] == old_lv[l][k],
                forall|l: int|
                    level < l <= d ==> #[trigger] self.lv()[l][path_at(index as nat, l as nat) as int]
                        == old_lv[l][path_at(index as nat, l as nat) as int],
                forall|l: int, k: int|
                    0 <= l < d && 0 <= k < self.lv()[l + 1].len() && !(l == level && k == path_at(
                        index as nat,
                        (l + 1) as nat,
                    )) ==> #[trigger] parent_link(self.lv(), l, k),
            decreases self.max_depth - level,
        {
            let parent_idx = j / 2;
            let left_idx = 2 * (j / 2);
            proof {
                lemma_path_in_width(index as nat, nn, level as nat + 1);
                assert(width_at(nn, level as nat + 1) == (width_at(nn, level as nat) + 1) / 2);
            }
            let w = self.level_len(level);
            let left = self.get_node(level, left_idx);
            let parent: [u8; 32] = if left_idx + 1 < w {
                let right = self.get_node(level, left_idx + 1);
                hash_pair(&left, &right)
            } else {
                hash_pair(&left, &zero32())
            };
            let ghost before = self.lv();
            self.set_node(level + 1, parent_idx, parent);
            proof {
                let li = level as int;
                let pi = parent_idx as int;
                assert(parent@ == parent_of(before[li], pi));
                assert(self.lv()[li + 1] == before[li + 1].update(pi, parent@));
                assert forall|l: int, k: int|
                    0 <= l < d && 0 <= k < self.lv()[l + 1].len() && !(l == li + 1 && k == path_at(
                        index as nat,
                        (l + 1) as nat,
                    )) implies #[trigger] parent_link(self.lv(), l, k) by {
                    if l == li && k == pi {
                        assert(self.lv()[l] == before[l]);
                        assert(self.lv()[l + 1][k] == parent@);
                    } else if l == li + 1 {
                        // Parents one level up: only the ancestor over the
                        // changed node could break, and it is excluded.
                        assert(parent_link(before, l, k));
                        assert(self.lv()[l + 1] == before[l + 1]);
                        assert(k != path_at(index as nat, (l + 1) as nat));
                        assert(2 * k != pi && 2 * k + 1 != pi) by {
                            assert(path_at(index as nat, (l + 1) as nat) == path_at(
                                index as nat,
                                l as nat,
                            ) / 2);
                            assert(path_at(index as nat, l as nat) == pi);
                        }
                        assert(parent_of(self.lv()[l], k) == parent_of(before[l], k));
                    } else if l == li {
                        assert(parent_link(before, l, k));
                        assert(self.lv()[l] == before[l]);
                        assert(self.lv()[l + 1][k] == before[l + 1][k]);
                    } else {
                        assert(parent_link(before, l, k));
                        assert(self.lv()[l] == before[l] && self.lv()[l + 1] == before[l + 1]);
                    }
                }
            }
            j = parent_idx;
            level = level + 1;
        }
        proof {
            assert forall|l: int|
                0 <= l <= self.depth() implies #[trigger] self.lv()[l].len() == (
            if self.leaf_count() == 0 {
                0nat
            } else {
                width_at(self.leaf_count(), l as nat)
            }) by {}
        }
    }
}

/// Inclusion proofs of leaves whose paths' siblings avoid an updated
/// leaf's path are unchanged by the update: a proof for `j` consults only
/// the siblings along `j`'s path, and none of them lies on `index`'s path.
pub proof fn lemma_proof_unchanged_off_path(
    t_old: &MerkleTree,
    t_new: &MerkleTree,
    index: nat,
    j: nat,
)
    requires
        t_old.wf(),
        t_new.wf(),
        t_old.depth() == t_new.depth(),
        t_old.lv().len() == t_new.lv().len(),
        forall|l: int|
            0 <= l < t_new.lv().len() ==> #[trigger] t_new.lv()[l].len() == t_old.lv()[l].len(),
        forall|l: int, k: int|
            0 <= l < t_new.lv().len() && 0 <= k < t_new.lv()[l].len() && k != path_at(
                index,
                l as nat,
            ) ==> #[trigger] t_new.lv()[l][k] == t_old.lv()[l][k],
        forall|l: int|
            0 <= l < t_new.depth() ==> sibling_of(#[trigger] path_at(j, l as nat)) != path_at(
                index,
                l as nat,
            ),
    ensures
        t_new.spec_proof(j) == t_old.spec_proof(j),
{
    lemma_entries_unchanged(t_old, t_new, index, j, 0);
}

proof fn lemma_entries_unchanged(
    t_old: &MerkleTree,
    t_new: &MerkleTree,
    index: nat,
    j: nat,
    level: nat,
)
    requires
        t_old.wf(),
        t_new.wf(),
        t_old.depth() == t_new.depth(),
        t_old.lv().len() == t_new.lv().len(),
        level <= t_new.depth(),
        forall|l: int|
            0 <= l < t_new.lv().len() ==> #[trigger] t_new.lv()[l].len() == t_old.lv()[l].len(),
        forall|l: int, k: int|
            0 <= l < t_new.lv().len() && 0 <= k < t_new.lv()[l].len() && k != path_at(
                index,
                l as nat,
            ) ==> #[trigger] t_new.lv()[l][k] == t_old.lv()[l][k],
        forall|l: int|
            0 <= l < t_new.depth() ==> sibling_of(#[trigger] path_at(j, l as nat)) != path_at(
                index,
                l as nat,
            ),
    ensures
        proof_entries(t_new.lv(), t_new.depth(), level, path_at(j, level)) == proof_entries(
            t_old.lv(),
            t_old.depth(),
            level,
            path_at(j, level),
        ),
    decreases t_new.depth() - level,
{
    let d = t_new.depth();
    if level < d {
        let idx = path_at(j, level);
        let s = sibling_of(idx);
        lemma_entries_unchanged(t_old, t_new, index, j, level + 1);
        assert(path_at(j, level + 1) == idx / 2);
        if s < t_new.lv()[level as int].len() {
            assert(s != path_at(index, level));
            assert(t_new.lv()[level as int][s as int] == t_old.lv()[level as int][s as int]);
        }
    }
}

} // verus!
