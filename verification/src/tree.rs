//! Fixed-height, append-only incremental Merkle tree.
//!
//! Level 0 holds the leaves in append order; level `k + 1` holds one parent
//! per pair of level-`k` nodes, populated only as far as it has ever been
//! written.  A position beyond a level's current length implicitly holds the
//! precomputed hash of an entirely empty subtree of that height, so an
//! append touches exactly one node per level.

use vstd::prelude::*;

use crate::field::Fe;
use crate::hash::bn254_poseidon;

verus! {

use crate::hash::hash2_of;
use vstd::arithmetic::power2::pow2;

/// Height of the tree: level 0 holds leaves, level `TREE_HEIGHT` the root.
pub const TREE_HEIGHT: usize = 25;

/// Leaf capacity, 2 to the `TREE_HEIGHT`.
pub const TREE_CAPACITY: usize = 0x2000000;

/// Index of a leaf's ancestor at level `k` (the leaf itself at level 0).
pub open spec fn anc_index(i: int, k: int) -> int
    decreases k,
{
    if k <= 0 {
        i
    } else {
        anc_index(i, k - 1) / 2
    }
}

/// Index of a node's sibling: the other child of the same parent.
pub open spec fn sib_index(j: int) -> int {
    if j % 2 == 0 {
        j + 1
    } else {
        j - 1
    }
}

/// How many nodes of a level are populated once its child level holds `n`.
pub open spec fn parent_len(n: int) -> int {
    if n <= 0 {
        0
    } else {
        (n - 1) / 2 + 1
    }
}

/// A level's populated length after a write at child position `a`: unchanged
/// below the length, one longer exactly at it.
pub open spec fn grown_len(n: int, a: int) -> int {
    if a < n {
        n
    } else {
        n + 1
    }
}

pub struct MerkleTree {
    pub levels: Vec<Vec<Fe>>,
    pub zeros: Vec<Fe>,
}

/// The node at `(k, j)` is the hash of its two children, an unpopulated
/// child standing for the empty subtree of its level.
pub open spec fn parent_ok(t: MerkleTree, k: int, j: int) -> bool {
    t.levels@[k]@[j].val() == hash2_of(t.node_val(k - 1, 2 * j), t.node_val(k - 1, 2 * j + 1))
}

/// Mid-append shape: levels up to `lvl` rewritten along the path of leaf
/// `i0`, levels above untouched, and every populated parent the hash of its
/// two children but for the one stale ancestor just above the last level
/// written.
pub open spec fn mid_append(
    prev: MerkleTree,
    cur: MerkleTree,
    i0: int,
    lvl: int,
    row0: Seq<Fe>,
) -> bool {
    &&& cur.levels@.len() == TREE_HEIGHT + 1
    &&& cur.zeros@ == prev.zeros@
    &&& forall|k: int|
        0 <= k <= lvl ==> #[trigger] cur.len_at(k) == grown_len(prev.len_at(k), anc_index(i0, k))
    &&& forall|k: int| lvl < k <= TREE_HEIGHT ==> cur.levels@[k] == prev.levels@[k]
    &&& anc_index(i0, lvl) < cur.len_at(lvl)
    &&& forall|k: int, j: int|
        0 <= k <= TREE_HEIGHT && 0 <= j < cur.len_at(k) ==> (#[trigger] cur.levels@[k]@[j]).wf()
    &&& cur.levels@[0]@ == row0
    &&& forall|k: int, j: int|
        1 <= k <= TREE_HEIGHT && 0 <= j < cur.len_at(k) && !(k == lvl + 1 && j == anc_index(i0, k))
            ==> #[trigger] parent_ok(cur, k, j)
}

/// Writing the leaf at level 0 leaves the tree in mid-append shape at level 0.
#[verifier::rlimit(100)]
#[verifier::spinoff_prover]
proof fn lemma_append_base(prev: MerkleTree, cur: MerkleTree, i0: int, lfe: Fe)
    requires
        prev.wf(),
        0 <= i0 < TREE_CAPACITY,
        i0 <= prev.len_at(0),
        lfe.wf(),
        cur.zeros@ == prev.zeros@,
        cur.levels@ == prev.levels@.update(0, cur.levels@[0]),
        i0 < prev.len_at(0) ==> cur.levels@[0]@ == prev.levels@[0]@.update(i0, lfe),
        i0 >= prev.len_at(0) ==> cur.levels@[0]@ == prev.levels@[0]@.push(lfe),
    ensures
        mid_append(prev, cur, i0, 0, cur.levels@[0]@),
        cur.node_val(0, i0) == lfe.val(),
{
    assert(forall|k: int| 0 < k <= TREE_HEIGHT ==> cur.levels@[k] == prev.levels@[k]);
    assert forall|k: int, j: int|
        1 <= k <= TREE_HEIGHT && 0 <= j < cur.len_at(k) && !(k == 1 && j == anc_index(i0, k))
            implies #[trigger] parent_ok(cur, k, j) by {
        assert(parent_ok(prev, k, j));
        if k == 1 {
            vstd::arithmetic::div_mod::lemma_fundamental_div_mod(i0, 2);
            assert(anc_index(i0, 0) == i0);
            assert(anc_index(i0, 1) == i0 / 2);
            assert(2 * j != i0 && 2 * j + 1 != i0);
            assert(cur.node_val(0, 2 * j) == prev.node_val(0, 2 * j));
            assert(cur.node_val(0, 2 * j + 1) == prev.node_val(0, 2 * j + 1));
        } else {
            assert(cur.node_val(k - 1, 2 * j) == prev.node_val(k - 1, 2 * j));
            assert(cur.node_val(k - 1, 2 * j + 1) == prev.node_val(k - 1, 2 * j + 1));
        }
    }
}

/// Writing the freshly hashed parent one level up moves the mid-append
/// shape one level up.
#[verifier::rlimit(100)]
#[verifier::spinoff_prover]
proof fn lemma_append_step(
    prev: MerkleTree,
    before: MerkleTree,
    after: MerkleTree,
    i0: int,
    lvl: int,
    pfe: Fe,
    row0: Seq<Fe>,
)
    requires
        prev.wf(),
        0 <= i0 < TREE_CAPACITY,
        i0 <= prev.len_at(0),
        0 <= lvl < TREE_HEIGHT,
        mid_append(prev, before, i0, lvl, row0),
        pfe.wf(),
        pfe.val() == hash2_of(
            before.node_val(lvl, 2 * anc_index(i0, lvl + 1)),
            before.node_val(lvl, 2 * anc_index(i0, lvl + 1) + 1),
        ),
        0 <= anc_index(i0, lvl + 1) <= before.len_at(lvl + 1),
        after.zeros@ == before.zeros@,
        after.levels@ == before.levels@.update(lvl + 1, after.levels@[lvl + 1]),
        anc_index(i0, lvl + 1) < before.len_at(lvl + 1) ==> after.levels@[lvl + 1]@
            == before.levels@[lvl + 1]@.update(anc_index(i0, lvl + 1), pfe),
        anc_index(i0, lvl + 1) >= before.len_at(lvl + 1) ==> after.levels@[lvl + 1]@
            == before.levels@[lvl + 1]@.push(pfe),
    ensures
        mid_append(prev, after, i0, lvl + 1, row0),
{
    let p = anc_index(i0, lvl + 1);
    assert(forall|k: int|
        0 <= k <= TREE_HEIGHT && k != lvl + 1 ==> after.levels@[k] == before.levels@[k]);
    assert(before.levels@[lvl + 1] == prev.levels@[lvl + 1]);
    if p < before.len_at(lvl + 1) {
        assert(after.levels@[lvl + 1]@.len() == before.levels@[lvl + 1]@.len());
    } else {
        assert(p == before.len_at(lvl + 1));
        assert(after.levels@[lvl + 1]@.len() == before.levels@[lvl + 1]@.len() + 1);
    }
    assert(after.len_at(lvl + 1) == grown_len(prev.len_at(lvl + 1), p));
    assert(after.levels@[0] == before.levels@[0]);
    assert forall|k: int| 0 <= k <= lvl + 1 implies #[trigger] after.len_at(k) == grown_len(
        prev.len_at(k), anc_index(i0, k)) by {
        if k <= lvl {
            assert(after.levels@[k] == before.levels@[k]);
            assert(before.len_at(k) == grown_len(prev.len_at(k), anc_index(i0, k)));
        }
    }
    assert forall|k: int| lvl + 1 < k <= TREE_HEIGHT implies after.levels@[k]
        == prev.levels@[k] by {
        assert(after.levels@[k] == before.levels@[k]);
        assert(before.levels@[k] == prev.levels@[k]);
    }
    assert forall|k: int, j: int|
        0 <= k <= TREE_HEIGHT && 0 <= j < after.len_at(k) implies (#[trigger] after.levels@[k]@[
            j]).wf() by {
        if k == lvl + 1 && j == p {
            assert(after.levels@[k]@[j] == pfe);
        } else if k == lvl + 1 {
            assert(after.levels@[k]@[j] == before.levels@[k]@[j]);
            assert((before.levels@[k]@[j]).wf());
        } else {
            assert(after.levels@[k] == before.levels@[k]);
            assert(after.levels@[k]@[j] == before.levels@[k]@[j]);
            assert((before.levels@[k]@[j]).wf());
        }
    }
    // node values at the child level are untouched by the parent write
    assert(forall|c: int| after.node_val(lvl, c) == before.node_val(lvl, c));
    assert forall|k: int, j: int|
        1 <= k <= TREE_HEIGHT && 0 <= j < after.len_at(k) && !(k == lvl + 2 && j == anc_index(
            i0, k)) implies #[trigger] parent_ok(after, k, j) by {
        if k == lvl + 1 && j == p {
            assert(after.levels@[k]@[j].val() == pfe.val());
        } else {
            assert(after.levels@[k]@[j] == before.levels@[k]@[j]);
            assert(parent_ok(before, k, j));
            if k == lvl + 2 {
                vstd::arithmetic::div_mod::lemma_fundamental_div_mod(p, 2);
                assert(anc_index(i0, lvl + 2) == p / 2);
                assert(2 * j != p && 2 * j + 1 != p);
                assert(after.node_val(k - 1, 2 * j) == before.node_val(k - 1, 2 * j));
                assert(after.node_val(k - 1, 2 * j + 1) == before.node_val(k - 1, 2 * j + 1));
            } else if k <= lvl {
                assert(after.node_val(k - 1, 2 * j) == before.node_val(k - 1, 2 * j));
                assert(after.node_val(k - 1, 2 * j + 1) == before.node_val(k - 1, 2 * j + 1));
            } else {
                assert(after.node_val(k - 1, 2 * j) == before.node_val(k - 1, 2 * j));
                assert(after.node_val(k - 1, 2 * j + 1) == before.node_val(k - 1, 2 * j + 1));
            }
        }
    }
    assert(after.levels@.len() == TREE_HEIGHT + 1);
    assert(after.zeros@ == prev.zeros@);
    assert(anc_index(i0, lvl + 1) < after.len_at(lvl + 1));
    assert(forall|k: int|
        0 <= k <= lvl + 1 ==> #[trigger] after.len_at(k) == grown_len(
            prev.len_at(k), anc_index(i0, k)));
    assert(forall|k: int| lvl + 1 < k <= TREE_HEIGHT ==> after.levels@[k] == prev.levels@[k]);
    assert(forall|k: int, j: int|
        0 <= k <= TREE_HEIGHT && 0 <= j < after.len_at(k) ==> (#[trigger] after.levels@[k]@[
            j]).wf());
    assert(forall|k: int, j: int|
        1 <= k <= TREE_HEIGHT && 0 <= j < after.len_at(k) && !(k == lvl + 1 + 1 && j
            == anc_index(i0, k)) ==> #[trigger] parent_ok(after, k, j));
    assert(mid_append(prev, after, i0, lvl + 1, row0));
}

/// Once every level has been rewritten the tree is well formed again, its
/// lengths grown exactly along the leaf's ancestor path.
#[verifier::rlimit(100)]
#[verifier::spinoff_prover]
proof fn lemma_append_complete(prev: MerkleTree, cur: MerkleTree, i0: int, row0: Seq<Fe>)
    requires
        prev.wf(),
        0 <= i0 < TREE_CAPACITY,
        i0 <= prev.len_at(0),
        mid_append(prev, cur, i0, TREE_HEIGHT as int, row0),
    ensures
        cur.wf(),
        forall|k: int|
            0 <= k <= TREE_HEIGHT ==> #[trigger] cur.len_at(k)
                == grown_len(prev.len_at(k), anc_index(i0, k)),
        cur.levels@[0]@ == row0,
{
    assert forall|k: int|
        1 <= k <= TREE_HEIGHT implies #[trigger] cur.len_at(k)
            == parent_len(cur.len_at(k - 1)) by {
        lemma_anc_in_range(prev, i0, k - 1);
        lemma_grown_parent_len(prev.len_at(k - 1), anc_index(i0, k - 1));
    }
    assert(cur.levels@.len() == TREE_HEIGHT + 1);
    assert(cur.zeros@.len() == TREE_HEIGHT + 1);
    assert(forall|k: int| 0 <= k <= TREE_HEIGHT ==> (#[trigger] cur.zeros@[k]).wf());
    assert(cur.zeros@[0].val() == 0);
    assert(forall|k: int|
        1 <= k <= TREE_HEIGHT ==> (#[trigger] cur.zeros@[k]).val()
            == hash2_of(cur.zeros@[k - 1].val(), cur.zeros@[k - 1].val()));
    assert(cur.len_at(0) == grown_len(prev.len_at(0), i0));
    assert(cur.len_at(0) <= TREE_CAPACITY);
    assert forall|k: int, j: int|
        1 <= k <= TREE_HEIGHT && 0 <= j < cur.len_at(k) implies #[trigger] parent_ok(
            cur, k, j) by {
        assert(!(k == TREE_HEIGHT + 1 && j == anc_index(i0, k)));
    }
    assert(cur.wf());
}

impl MerkleTree {
    /// Number of populated nodes at level `k`.
    pub open spec fn len_at(&self, k: int) -> int {
        self.levels@[k]@.len() as int
    }

    /// Hash of the empty subtree of height `k`.
    pub open spec fn zero_val(&self, k: int) -> nat {
        self.zeros@[k].val()
    }

    /// The field element at `(level, position)`: the stored node when the
    /// position is populated, the empty-subtree hash of that level otherwise.
    pub open spec fn node_fe(&self, k: int, j: int) -> Fe {
        if 0 <= j < self.len_at(k) {
            self.levels@[k]@[j]
        } else {
            self.zeros@[k]
        }
    }

    /// Value of the node at `(level, position)`: the stored node when the
    /// position is populated, the empty-subtree hash of that level otherwise.
    pub open spec fn node_val(&self, k: int, j: int) -> nat {
        if 0 <= j < self.len_at(k) {
            self.levels@[k]@[j].val()
        } else {
            self.zero_val(k)
        }
    }

    /// The tree's root: the single node of the top level.
    pub open spec fn root_val(&self) -> nat {
        self.node_val(TREE_HEIGHT as int, 0)
    }

    pub open spec fn wf(&self) -> bool {
        &&& self.levels@.len() == TREE_HEIGHT + 1
        &&& self.zeros@.len() == TREE_HEIGHT + 1
        &&& forall|k: int, j: int|
            0 <= k <= TREE_HEIGHT && 0 <= j < self.len_at(k)
                ==> (#[trigger] self.levels@[k]@[j]).wf()
        &&& forall|k: int| 0 <= k <= TREE_HEIGHT ==> (#[trigger] self.zeros@[k]).wf()
        &&& self.zeros@[0].val() == 0
        &&& forall|k: int|
            1 <= k <= TREE_HEIGHT ==> (#[trigger] self.zeros@[k]).val()
                == hash2_of(self.zeros@[k - 1].val(), self.zeros@[k - 1].val())
        &&& self.len_at(0) <= TREE_CAPACITY
        &&& forall|k: int|
            1 <= k <= TREE_HEIGHT ==> #[trigger] self.len_at(k) == parent_len(self.len_at(k - 1))
        &&& forall|k: int, j: int|
            1 <= k <= TREE_HEIGHT && 0 <= j < self.len_at(k) ==> #[trigger] parent_ok(*self, k, j)
    }

    /// A fresh, empty tree: every level empty, the empty-subtree hashes
    /// precomputed from a zero leaf upward.
    pub fn new() -> (r: MerkleTree)
        ensures
            r.wf(),
            r.len_at(0) == 0,
    {
        let mut zeros: Vec<Fe> = Vec::new();
        zeros.push(Fe::zero());
        let mut k: usize = 1;
        while k <= TREE_HEIGHT
            invariant
                1 <= k <= TREE_HEIGHT + 1,
                zeros@.len() == k,
                forall|m: int| 0 <= m < k ==> (#[trigger] zeros@[m]).wf(),
                zeros@[0].val() == 0,
                forall|m: int|
                    1 <= m < k ==> (#[trigger] zeros@[m]).val()
                        == hash2_of(zeros@[m - 1].val(), zeros@[m - 1].val()),
            decreases TREE_HEIGHT + 1 - k,
        {
            let z = bn254_poseidon(&zeros[k - 1], &zeros[k - 1]);
            zeros.push(z);
            k = k + 1;
        }
        let mut levels: Vec<Vec<Fe>> = Vec::new();
        let mut m: usize = 0;
        while m <= TREE_HEIGHT
            invariant
                m <= TREE_HEIGHT + 1,
                levels@.len() == m,
                forall|q: int| 0 <= q < m ==> (#[trigger] levels@[q])@.len() == 0,
            decreases TREE_HEIGHT + 1 - m,
        {
            levels.push(Vec::new());
            m = m + 1;
        }
        MerkleTree { levels, zeros }
    }

    /// Number of leaves appended so far.
    pub fn leaf_count(&self) -> (r: usize)
        requires
            self.wf(),
        ensures
            r == self.len_at(0),
    {
        self.levels[0].len()
    }

    /// The current root: hash of the whole (mostly empty) tree.
    pub fn root(&self) -> (r: Fe)
        requires
            self.wf(),
        ensures
            r.wf(),
            r.val() == self.root_val(),
            r.bytes@ == self.node_fe(TREE_HEIGHT as int, 0).bytes@,
    {
        if self.levels[TREE_HEIGHT].len() > 0 {
            self.levels[TREE_HEIGHT][0].dup()
        } else {
            self.zeros[TREE_HEIGHT].dup()
        }
    }

    /// Write `leaf` at `index` on level 0 (in place below the current length,
    /// appended exactly at it) and recompute the one ancestor per level, each
    /// parent hashed from its two children with the empty-subtree hash
    /// standing in for an unpopulated sibling.  Exactly `TREE_HEIGHT` hash
    /// evaluations, whatever the tree holds.
    #[verifier::rlimit(100)]
    pub fn append(&mut self, index: usize, leaf: &Fe)
        requires
            old(self).wf(),
            leaf.wf(),
            index <= old(self).len_at(0),
            index < TREE_CAPACITY,
        ensures
            final(self).wf(),
            final(self).zeros@ == old(self).zeros@,
            final(self).node_val(0, index as int) == leaf.val(),
            final(self).levels@[0]@[index as int].bytes@ == leaf.bytes@,
            forall|k: int|
                0 <= k <= TREE_HEIGHT ==> #[trigger] final(self).len_at(k)
                    == grown_len(old(self).len_at(k), anc_index(index as int, k)),
            forall|j: int|
                0 <= j < final(self).len_at(0) && j != index ==> j < old(self).len_at(0)
                    && #[trigger] final(self).levels@[0]@[j] == old(self).levels@[0]@[j],
    {
        let ghost i0 = index as int;
        let ghost prev = *self;
        let cur = leaf.dup();
        let ghost lfe = cur;
        if index < self.levels[0].len() {
            self.levels[0][index] = cur;
            proof {
                assert(self.levels@[0]@ =~= prev.levels@[0]@.update(i0, lfe));
            }
        } else {
            self.levels[0].push(cur);
            proof {
                assert(self.levels@[0]@ =~= prev.levels@[0]@.push(lfe));
            }
        }
        let ghost row0 = self.levels@[0]@;
        proof {
            assert(self.levels@ =~= prev.levels@.update(0, self.levels@[0]));
            lemma_append_base(prev, *self, i0, lfe);
        }
        let mut lvl: usize = 0;
        let mut idx: usize = index;
        while lvl < TREE_HEIGHT
            invariant
                prev.wf(),
                leaf.wf(),
                lvl <= TREE_HEIGHT,
                idx == anc_index(i0, lvl as int),
                0 <= i0 < TREE_CAPACITY,
                i0 <= prev.len_at(0),
                self.zeros@ == prev.zeros@,
                mid_append(prev, *self, i0, lvl as int, row0),
                self.node_val(0, i0) == leaf.val(),
            decreases TREE_HEIGHT - lvl,
        {
            let ghost before = *self;
            proof {
                vstd::arithmetic::div_mod::lemma_fundamental_div_mod(idx as int, 2);
                assert(anc_index(i0, lvl + 1) == idx as int / 2);
                lemma_anc_in_range(prev, i0, lvl + 1);
                assert(before.levels@[lvl + 1] == prev.levels@[lvl + 1]);
            }
            let even = idx % 2 == 0;
            let parent_idx = idx / 2;
            let parent = if even {
                let has_sib = idx + 1 < self.levels[lvl].len();
                if has_sib {
                    bn254_poseidon(&self.levels[lvl][idx], &self.levels[lvl][idx + 1])
                } else {
                    bn254_poseidon(&self.levels[lvl][idx], &self.zeros[lvl])
                }
            } else {
                bn254_poseidon(&self.levels[lvl][idx - 1], &self.levels[lvl][idx])
            };
            proof {
                assert(parent.val()
                    == hash2_of(before.node_val(lvl as int, 2 * (idx as int / 2)),
                        before.node_val(lvl as int, 2 * (idx as int / 2) + 1)));
            }
            let ghost pfe = parent;
            let next_len = self.levels[lvl + 1].len();
            if parent_idx < next_len {
                self.levels[lvl + 1][parent_idx] = parent;
                proof {
                    assert(self.levels@[lvl + 1]@
                        =~= before.levels@[lvl + 1]@.update(parent_idx as int, pfe));
                }
            } else {
                self.levels[lvl + 1].push(parent);
                proof {
                    assert(self.levels@[lvl + 1]@ =~= before.levels@[lvl + 1]@.push(pfe));
                }
            }
            proof {
                assert(self.levels@ =~= before.levels@.update(lvl + 1, self.levels@[lvl + 1]));
                lemma_append_step(prev, before, *self, i0, lvl as int, pfe, row0);
            }
            idx = parent_idx;
            lvl = lvl + 1;
        }
        proof {
            lemma_append_complete(prev, *self, i0, row0);
            assert(self.levels@[0]@[i0] == lfe);
            assert forall|j: int|
                0 <= j < self.len_at(0) && j != i0 implies j < prev.len_at(0)
                    && #[trigger] self.levels@[0]@[j] == prev.levels@[0]@[j] by {
                if i0 < prev.len_at(0) {
                    assert(self.levels@[0]@ == prev.levels@[0]@.update(i0, lfe));
                } else {
                    assert(self.levels@[0]@ == prev.levels@[0]@.push(lfe));
                }
            }
        }
    }

    /// Sibling values and direction bits of the inclusion path for a leaf
    /// position, bottom level first, together `TREE_HEIGHT` long.  A
    /// direction bit of 0 means the current node is a left child.  Any
    /// position below the capacity is valid; an unpopulated one yields a
    /// proof against the all-zero subtree.
    pub fn path_of(&self, index: usize) -> (r: (Vec<Fe>, Vec<u8>))
        requires
            self.wf(),
            index < TREE_CAPACITY,
        ensures
            r.0@.len() == TREE_HEIGHT,
            r.1@.len() == TREE_HEIGHT,
            forall|k: int|
                0 <= k < TREE_HEIGHT ==> (#[trigger] r.0@[k]).wf() && r.0@[k].val()
                    == self.node_val(k, sib_index(anc_index(index as int, k))) && r.0@[k].bytes@
                    == self.node_fe(k, sib_index(anc_index(index as int, k))).bytes@,
            forall|k: int|
                0 <= k < TREE_HEIGHT ==> #[trigger] r.1@[k] == (anc_index(index as int, k) % 2) as u8,
    {
        let ghost i0 = index as int;
        let mut sibs: Vec<Fe> = Vec::new();
        let mut dirs: Vec<u8> = Vec::new();
        let mut idx: usize = index;
        let mut lvl: usize = 0;
        while lvl < TREE_HEIGHT
            invariant
                self.wf(),
                0 <= lvl <= TREE_HEIGHT,
                idx == anc_index(i0, lvl as int),
                0 <= i0 < TREE_CAPACITY,
                sibs@.len() == lvl,
                dirs@.len() == lvl,
                forall|k: int|
                    0 <= k < lvl ==> (#[trigger] sibs@[k]).wf() && sibs@[k].val()
                        == self.node_val(k, sib_index(anc_index(i0, k))) && sibs@[k].bytes@
                        == self.node_fe(k, sib_index(anc_index(i0, k))).bytes@,
                forall|k: int| 0 <= k < lvl ==> #[trigger] dirs@[k] == (anc_index(i0, k) % 2) as u8,
            decreases TREE_HEIGHT - lvl,
        {
            let even = idx % 2 == 0;
            let sib_idx = if even { idx + 1 } else { idx - 1 };
            let sib_fe = if sib_idx < self.levels[lvl].len() {
                self.levels[lvl][sib_idx].dup()
            } else {
                self.zeros[lvl].dup()
            };
            proof {
                assert(sib_idx as int == sib_index(anc_index(i0, lvl as int)));
                assert(sib_fe.val() == self.node_val(lvl as int, sib_idx as int));
                assert(sib_fe.wf());
            }
            sibs.push(sib_fe);
            dirs.push(if even { 0u8 } else { 1u8 });
            proof {
                vstd::arithmetic::div_mod::lemma_fundamental_div_mod(idx as int, 2);
                assert(anc_index(i0, lvl + 1) == idx as int / 2);
            }
            idx = idx / 2;
            lvl = lvl + 1;
        }
        (sibs, dirs)
    }
}

/// A leaf position at most one past the populated prefix has each of its
/// ancestors at most one past the populated prefix of its level.
proof fn lemma_anc_in_range(t: MerkleTree, i0: int, k: int)
    requires
        t.wf(),
        0 <= i0 <= t.len_at(0),
        0 <= k <= TREE_HEIGHT,
    ensures
        0 <= anc_index(i0, k) <= t.len_at(k),
    decreases k,
{
    if k > 0 {
        lemma_anc_in_range(t, i0, k - 1);
        let a = anc_index(i0, k - 1);
        let n = t.len_at(k - 1);
        assert(t.len_at(k) == parent_len(n));
        vstd::arithmetic::div_mod::lemma_div_is_ordered(a, n, 2);
        vstd::arithmetic::div_mod::lemma_fundamental_div_mod(n, 2);
        vstd::arithmetic::div_mod::lemma_fundamental_div_mod(n - 1, 2);
        assert(anc_index(i0, k) == a / 2);
    }
}

/// After a write at child position `a` (at most one past a populated prefix
/// of length `n`), the parent level's populated length is again one parent
/// per pair of children.
proof fn lemma_grown_parent_len(n: int, a: int)
    requires
        0 <= a <= n,
    ensures
        ({
            let n2 = if a < n { n } else { n + 1 };
            let p = parent_len(n);
            let p2 = if a / 2 < p { p } else { p + 1 };
            p2 == parent_len(n2)
        }),
{
    vstd::arithmetic::div_mod::lemma_fundamental_div_mod(a, 2);
    vstd::arithmetic::div_mod::lemma_fundamental_div_mod(n - 1, 2);
    vstd::arithmetic::div_mod::lemma_fundamental_div_mod(n, 2);
}

/// Folding a leaf value up a path of siblings: at each level the current
/// node is hashed with its sibling, the node's parity deciding which is the
/// left child; the running index halves each level.
pub open spec fn fold_path(cur: nat, i: int, sibs: Seq<nat>) -> nat
    decreases sibs.len(),
{
    if sibs.len() == 0 {
        cur
    } else {
        let h = if i % 2 == 0 {
            hash2_of(cur, sibs[0])
        } else {
            hash2_of(sibs[0], cur)
        };
        fold_path(h, i / 2, sibs.drop_first())
    }
}

/// The sibling values along the path of leaf `i0`, from level `k` upward.
pub open spec fn sibs_from(t: MerkleTree, i0: int, k: int) -> Seq<nat> {
    Seq::new((TREE_HEIGHT - k) as nat, |m: int| t.node_val(k + m, sib_index(anc_index(i0, k + m))))
}

/// Folding from the path node at level `k` reaches the stored root.
proof fn lemma_fold_from(t: MerkleTree, i0: int, k: int)
    requires
        t.wf(),
        0 <= k <= TREE_HEIGHT,
        0 <= anc_index(i0, k),
        anc_index(i0, k) < pow2((TREE_HEIGHT - k) as nat),
    ensures
        fold_path(t.node_val(k, anc_index(i0, k)), anc_index(i0, k), sibs_from(t, i0, k))
            == t.root_val(),
    decreases TREE_HEIGHT - k,
{
    let a = anc_index(i0, k);
    let s = sibs_from(t, i0, k);
    if k == TREE_HEIGHT {
        vstd::arithmetic::power2::lemma2_to64();
        assert(a == 0);
        assert(s.len() == 0);
        assert(fold_path(t.node_val(k, a), a, s) == t.node_val(k, a));
    } else {
        assert(s.len() == TREE_HEIGHT - k);
        assert(s[0] == t.node_val(k, sib_index(a)));
        vstd::arithmetic::div_mod::lemma_fundamental_div_mod(a, 2);
        assert(anc_index(i0, k + 1) == a / 2);
        let pa = a / 2;
        let h = if a % 2 == 0 {
            hash2_of(t.node_val(k, a), s[0])
        } else {
            hash2_of(s[0], t.node_val(k, a))
        };
        if a % 2 == 0 {
            assert(2 * pa == a && 2 * pa + 1 == sib_index(a));
        } else {
            assert(2 * pa == sib_index(a) && 2 * pa + 1 == a);
        }
        if pa < t.len_at(k + 1) {
            assert(parent_ok(t, k + 1, pa));
            assert(t.node_val(k + 1, pa) == t.levels@[k + 1]@[pa].val());
        } else {
            assert(t.len_at(k + 1) == parent_len(t.len_at(k)));
            if t.len_at(k) > 0 {
                vstd::arithmetic::div_mod::lemma_fundamental_div_mod(t.len_at(k) - 1, 2);
            }
            assert(2 * pa >= t.len_at(k));
            assert(t.node_val(k, 2 * pa) == t.zero_val(k));
            assert(t.node_val(k, 2 * pa + 1) == t.zero_val(k));
            assert(t.zeros@[k + 1].val() == hash2_of(t.zeros@[k].val(), t.zeros@[k].val()));
            assert(t.node_val(k + 1, pa) == t.zero_val(k + 1));
        }
        assert(h == t.node_val(k + 1, pa));
        vstd::arithmetic::power2::lemma_pow2_unfold((TREE_HEIGHT - k) as nat);
        assert(pow2((TREE_HEIGHT - k) as nat) == 2 * pow2((TREE_HEIGHT - k - 1) as nat));
        assert(pa < pow2((TREE_HEIGHT - k - 1) as nat));
        lemma_fold_from(t, i0, k + 1);
        assert(s.drop_first() =~= sibs_from(t, i0, k + 1));
        assert(fold_path(t.node_val(k, a), a, s) == fold_path(h, pa, s.drop_first()));
    }
}

/// Recomputing the root from any leaf position's inclusion path -- the leaf
/// value hashed with each sibling in order -- yields the tree's stored root.
pub proof fn lemma_path_fold_root(t: MerkleTree, i0: int)
    requires
        t.wf(),
        0 <= i0 < TREE_CAPACITY,
    ensures
        fold_path(t.node_val(0, i0), i0, sibs_from(t, i0, 0)) == t.root_val(),
{
    vstd::arithmetic::power2::lemma2_to64();
    assert(anc_index(i0, 0) == i0);
    assert(pow2((TREE_HEIGHT - 0) as nat) == 0x2000000);
    lemma_fold_from(t, i0, 0);
}

/// With no leaves, every level is empty.
proof fn lemma_levels_empty(t: MerkleTree, k: int)
    requires
        t.wf(),
        t.len_at(0) == 0,
        0 <= k <= TREE_HEIGHT,
    ensures
        t.len_at(k) == 0,
    decreases k,
{
    if k > 0 {
        lemma_levels_empty(t, k - 1);
    }
}

/// The empty tree's baseline: the root is the empty-subtree hash of the full
/// height and every node of every level reads as its level's empty-subtree
/// hash, so every inclusion path is a proof against the all-zero subtree.
pub proof fn lemma_empty_tree(t: MerkleTree)
    requires
        t.wf(),
        t.len_at(0) == 0,
    ensures
        t.root_val() == t.zero_val(TREE_HEIGHT as int),
        forall|k: int, j: int| 0 <= k <= TREE_HEIGHT ==> #[trigger] t.node_val(k, j) == t.zero_val(k),
{
    assert forall|k: int, j: int|
        0 <= k <= TREE_HEIGHT implies #[trigger] t.node_val(k, j) == t.zero_val(k) by {
        lemma_levels_empty(t, k);
    }
    lemma_levels_empty(t, TREE_HEIGHT as int);
}

/// Well-formedness alone pins the empty-subtree hashes down.
proof fn lemma_zeros_determined(a: MerkleTree, b: MerkleTree, k: int)
    requires
        a.wf(),
        b.wf(),
        0 <= k <= TREE_HEIGHT,
    ensures
        a.zero_val(k) == b.zero_val(k),
    decreases k,
{
    if k > 0 {
        lemma_zeros_determined(a, b, k - 1);
    }
}

/// Two well-formed trees with the same empty-subtree hashes and the same
/// leaf values agree on every node of level `k`.
proof fn lemma_level_determined(a: MerkleTree, b: MerkleTree, k: int)
    requires
        a.wf(),
        b.wf(),
        a.len_at(0) == b.len_at(0),
        forall|j: int|
            0 <= j < a.len_at(0) ==> #[trigger] a.levels@[0]@[j].val() == b.levels@[0]@[j].val(),
        forall|k2: int| 0 <= k2 <= TREE_HEIGHT ==> #[trigger] a.zero_val(k2) == b.zero_val(k2),
        0 <= k <= TREE_HEIGHT,
    ensures
        a.len_at(k) == b.len_at(k),
        forall|j: int| #[trigger] a.node_val(k, j) == b.node_val(k, j),
    decreases k,
{
    if k == 0 {
        assert forall|j: int| #[trigger] a.node_val(0, j) == b.node_val(0, j) by {
            if 0 <= j < a.len_at(0) {
                assert(a.levels@[0]@[j].val() == b.levels@[0]@[j].val());
            }
        }
    } else {
        lemma_level_determined(a, b, k - 1);
        assert(a.len_at(k) == parent_len(a.len_at(k - 1)));
        assert(b.len_at(k) == parent_len(b.len_at(k - 1)));
        assert forall|j: int| #[trigger] a.node_val(k, j) == b.node_val(k, j) by {
            if 0 <= j < a.len_at(k) {
                assert(parent_ok(a, k, j));
                assert(parent_ok(b, k, j));
                assert(a.node_val(k - 1, 2 * j) == b.node_val(k - 1, 2 * j));
                assert(a.node_val(k - 1, 2 * j + 1) == b.node_val(k - 1, 2 * j + 1));
            }
        }
    }
}

/// Replay determinism: a tree's root is a function of its leaf values and
/// its empty-subtree hashes alone, so rebuilding a tree from the same stored
/// leaves in the same positions reproduces the same root.
pub proof fn lemma_root_determined_by_leaves(a: MerkleTree, b: MerkleTree)
    requires
        a.wf(),
        b.wf(),
        a.len_at(0) == b.len_at(0),
        forall|j: int|
            0 <= j < a.len_at(0) ==> #[trigger] a.levels@[0]@[j].val() == b.levels@[0]@[j].val(),
    ensures
        a.root_val() == b.root_val(),
{
    assert forall|k: int| 0 <= k <= TREE_HEIGHT implies #[trigger] a.zero_val(k) == b.zero_val(
        k) by {
        lemma_zeros_determined(a, b, k);
    }
    lemma_level_determined(a, b, TREE_HEIGHT as int);
}

} // verus!
