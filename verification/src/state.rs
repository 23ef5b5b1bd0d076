//! The pool's shared state: the commitment indexes, the Merkle tree, and the
//! synchronization watermark, with idempotent leaf ingestion, hydration from
//! the durable store, and the inclusion-path query.

use vstd::prelude::*;

use crate::field::Fe;
use crate::field::from_hex;
use crate::field::to_canonical_hex;
use crate::tree::MerkleTree;
use crate::tree::TREE_CAPACITY;
use crate::tree::TREE_HEIGHT;

verus! {

use crate::field::canonical_hex_chars;
use crate::field::fe_modulus;
use crate::field::hex_nat;
use crate::field::strip_hex_prefix;
use crate::field::valid_hex;
use crate::tree::anc_index;
use crate::tree::sib_index;
use vstd::string::StringExecFns;

/// First match for a key in an association list of indices.
pub open spec fn lookup_index(s: Seq<(String, u64)>, key: Seq<char>) -> Option<u64>
    decreases s.len(),
{
    if s.len() == 0 {
        None
    } else if s[0].0@ == key {
        Some(s[0].1)
    } else {
        lookup_index(s.drop_first(), key)
    }
}

/// First match for a key in an association list of strings.
pub open spec fn lookup_str(s: Seq<(String, String)>, key: Seq<char>) -> Option<Seq<char>>
    decreases s.len(),
{
    if s.len() == 0 {
        None
    } else if s[0].0@ == key {
        Some(s[0].1@)
    } else {
        lookup_str(s.drop_first(), key)
    }
}

/// A found index entry names a position in the list.
proof fn lemma_lookup_index_some(s: Seq<(String, u64)>, key: Seq<char>, v: u64)
    requires
        lookup_index(s, key) == Some(v),
    ensures
        exists|i: int| 0 <= i < s.len() && (#[trigger] s[i]).0@ == key && s[i].1 == v,
    decreases s.len(),
{
    if s.len() > 0 && s[0].0@ != key {
        lemma_lookup_index_some(s.drop_first(), key, v);
        let i = choose|i: int|
            0 <= i < s.drop_first().len() && (#[trigger] s.drop_first()[i]).0@ == key
                && s.drop_first()[i].1 == v;
        assert(s[i + 1] == s.drop_first()[i]);
    }
}

fn find_index(entries: &Vec<(String, u64)>, key: &String) -> (r: Option<u64>)
    ensures
        r == lookup_index(entries@, key@),
{
    let mut i: usize = 0;
    proof {
        assert(entries@.skip(0) =~= entries@);
    }
    while i < entries.len()
        invariant
            i <= entries@.len(),
            lookup_index(entries@, key@) == lookup_index(entries@.skip(i as int), key@),
        decreases entries@.len() - i,
    {
        let hit = entries[i].0 == *key;
        proof {
            assert(entries@.skip(i as int)[0] == entries@[i as int]);
            assert(entries@.skip(i as int).drop_first() =~= entries@.skip(i + 1));
        }
        if hit {
            return Some(entries[i].1);
        }
        i = i + 1;
    }
    proof {
        assert(entries@.skip(i as int).len() == 0);
    }
    None
}

fn find_str(entries: &Vec<(String, String)>, key: &String) -> (r: Option<usize>)
    ensures
        match r {
            Some(i) => i < entries@.len() && entries@[i as int].0@ == key@ && lookup_str(
                entries@, key@) == Some(entries@[i as int].1@),
            None => lookup_str(entries@, key@) is None,
        },
{
    let mut i: usize = 0;
    proof {
        assert(entries@.skip(0) =~= entries@);
    }
    while i < entries.len()
        invariant
            i <= entries@.len(),
            lookup_str(entries@, key@) == lookup_str(entries@.skip(i as int), key@),
        decreases entries@.len() - i,
    {
        let hit = entries[i].0 == *key;
        proof {
            assert(entries@.skip(i as int)[0] == entries@[i as int]);
            assert(entries@.skip(i as int).drop_first() =~= entries@.skip(i + 1));
        }
        if hit {
            return Some(i);
        }
        i = i + 1;
    }
    proof {
        assert(entries@.skip(i as int).len() == 0);
    }
    None
}

/// Insert a note mapping, last write winning: an existing key is overwritten
/// in place, a new one appended.
fn upsert_str(entries: &mut Vec<(String, String)>, key: String, value: String)
    ensures
        lookup_str(final(entries)@, key@) == Some(value@),
        forall|k2: Seq<char>|
            k2 != key@ ==> #[trigger] lookup_str(final(entries)@, k2) == lookup_str(
                old(entries)@, k2),
{
    let ghost orig = entries@;
    let mut i: usize = 0;
    while i < entries.len()
        invariant
            entries@ == orig,
            old(entries)@ == orig,
            i <= orig.len(),
            forall|j: int| 0 <= j < i ==> (#[trigger] orig[j]).0@ != key@,
        decreases orig.len() - i,
    {
        let hit = entries[i].0 == *(&key);
        if hit {
            entries[i] = (key, value);
            proof {
                lemma_lookup_after_update(orig, entries@, i as int, key@, value@);
            }
            return ;
        }
        i = i + 1;
    }
    entries.push((key, value));
    proof {
        lemma_lookup_after_push(orig, entries@, key@, value@);
    }
}

/// Updating the first match rewrites that key's lookup and no other.
proof fn lemma_lookup_after_update(
    orig: Seq<(String, String)>,
    cur: Seq<(String, String)>,
    i: int,
    key: Seq<char>,
    value: Seq<char>,
)
    requires
        0 <= i < orig.len(),
        forall|j: int| 0 <= j < i ==> (#[trigger] orig[j]).0@ != key,
        orig[i].0@ == key,
        cur.len() == orig.len(),
        cur[i].0@ == key,
        cur[i].1@ == value,
        forall|j: int| 0 <= j < orig.len() && j != i ==> #[trigger] cur[j] == orig[j],
    ensures
        lookup_str(cur, key) == Some(value),
        forall|k2: Seq<char>|
            k2 != key ==> #[trigger] lookup_str(cur, k2) == lookup_str(orig, k2),
    decreases i,
{
    if i == 0 {
        assert forall|k2: Seq<char>|
            k2 != key implies #[trigger] lookup_str(cur, k2) == lookup_str(orig, k2) by {
            assert(orig[0].0@ == key && cur[0].0@ == key);
            assert(cur.drop_first() =~= orig.drop_first());
        }
    } else {
        assert(cur[0] == orig[0]);
        assert(forall|j: int|
            0 <= j < i - 1 ==> (#[trigger] orig.drop_first()[j]).0@ == orig[j + 1].0@);
        lemma_lookup_after_update(orig.drop_first(), cur.drop_first(), i - 1, key, value);
        assert(orig[0].0@ != key);
        assert forall|k2: Seq<char>|
            k2 != key implies #[trigger] lookup_str(cur, k2) == lookup_str(orig, k2) by {
            assert(lookup_str(cur.drop_first(), k2) == lookup_str(orig.drop_first(), k2));
        }
        assert(lookup_str(cur, key) == lookup_str(cur.drop_first(), key));
    }
}

/// Appending a fresh key adds its lookup and changes no other.
proof fn lemma_lookup_after_push(
    orig: Seq<(String, String)>,
    cur: Seq<(String, String)>,
    key: Seq<char>,
    value: Seq<char>,
)
    requires
        forall|j: int| 0 <= j < orig.len() ==> (#[trigger] orig[j]).0@ != key,
        cur.len() == orig.len() + 1,
        forall|j: int| 0 <= j < orig.len() ==> #[trigger] cur[j] == orig[j],
        cur[orig.len() as int].0@ == key,
        cur[orig.len() as int].1@ == value,
    ensures
        lookup_str(cur, key) == Some(value),
        forall|k2: Seq<char>|
            k2 != key ==> #[trigger] lookup_str(cur, k2) == lookup_str(orig, k2),
    decreases orig.len(),
{
    if orig.len() == 0 {
        assert(cur.drop_first().len() == 0);
        assert forall|k2: Seq<char>|
            k2 != key implies #[trigger] lookup_str(cur, k2) == lookup_str(orig, k2) by {
            assert(cur[0].0@ == key);
            assert(lookup_str(cur.drop_first(), k2) is None);
            assert(lookup_str(orig, k2) is None);
        }
    } else {
        assert(cur[0] == orig[0]);
        assert(forall|j: int|
            0 <= j < orig.len() - 1 ==> #[trigger] cur.drop_first()[j] == orig.drop_first()[j]);
        assert(cur.drop_first()[orig.len() - 1] == cur[orig.len() as int]);
        lemma_lookup_after_push(orig.drop_first(), cur.drop_first(), key, value);
        assert(orig[0].0@ != key);
        assert forall|k2: Seq<char>|
            k2 != key implies #[trigger] lookup_str(cur, k2) == lookup_str(orig, k2) by {
            assert(lookup_str(cur.drop_first(), k2) == lookup_str(orig.drop_first(), k2));
        }
    }
}


/// The value a stored row's commitment string denotes in the field.
pub open spec fn row_val(r: LeafRow) -> nat {
    hex_nat(strip_hex_prefix(r.commitment_hex@)) % fe_modulus()
}

/// A durable store's rows are replayable: within capacity, every commitment
/// parseable, indices dense and in order, and no commitment stored twice.
pub open spec fn rows_ok(rows: Seq<LeafRow>) -> bool {
    &&& rows.len() <= TREE_CAPACITY
    &&& forall|i: int|
        0 <= i < rows.len() ==> valid_hex((#[trigger] rows[i]).commitment_hex@)
            && rows[i].leaf_index == i as u64
    &&& forall|i: int, j: int| 0 <= i < j < rows.len() ==> row_val(rows[i]) != row_val(rows[j])
}

/// One row of the durable leaf table.
pub struct LeafRow {
    pub commitment_hex: String,
    pub leaf_index: u64,
    pub note_hash_hex: Option<String>,
    pub amount_hex: String,
}

/// Why hydration could not replay the store.
#[derive(Debug, PartialEq, Eq, Structural, Clone, Copy)]
pub enum HydrateError {
    BadCommitment,
    IndexMismatch,
    DuplicateCommitment,
    Oversize,
}

/// Outcome of an idempotent leaf insertion.
#[derive(Debug, PartialEq, Eq, Structural, Clone, Copy)]
pub enum AddOutcome {
    Added(u64),
    Duplicate,
}

/// An inclusion-path answer: the current root, one sibling and one direction
/// bit per level, the leaf's index and amount, and the commitment it was
/// resolved to.  All field elements travel as canonical hex strings.
pub struct MerklePathResponse {
    pub root: String,
    pub path: Vec<String>,
    pub indices: Vec<u8>,
    pub index: u64,
    pub amount: String,
    pub commitment: String,
}

/// The pool's entire in-memory state: commitment, note and amount indexes,
/// the incremental Merkle tree, and the cached synchronization watermark.
pub struct AppState {
    pub commitments: Vec<(String, u64)>,
    pub note_to_commitment: Vec<(String, String)>,
    pub commitment_to_amount: Vec<(String, String)>,
    pub tree: MerkleTree,
    pub last_indexed_block: u64,
}

impl AppState {
    /// The commitment index mirrors the tree: entry `i` maps the canonical
    /// hex of leaf `i` to index `i` -- a bijection onto the occupied leaf
    /// positions.
    pub open spec fn wf(&self) -> bool {
        &&& self.tree.wf()
        &&& self.commitments@.len() == self.tree.len_at(0)
        &&& forall|i: int|
            0 <= i < self.commitments@.len() ==> (#[trigger] self.commitments@[i]).1 == i as u64
        &&& forall|i: int|
            0 <= i < self.commitments@.len() ==> (#[trigger] self.commitments@[i]).0@
                == canonical_hex_chars(self.tree.levels@[0]@[i].bytes@)
    }

    /// An empty pool, its watermark at the configured start block.
    pub fn new(start_block: u64) -> (r: AppState)
        ensures
            r.wf(),
            r.tree.len_at(0) == 0,
            r.commitments@.len() == 0,
            r.note_to_commitment@.len() == 0,
            r.commitment_to_amount@.len() == 0,
            r.last_indexed_block == start_block,
    {
        AppState {
            commitments: Vec::new(),
            note_to_commitment: Vec::new(),
            commitment_to_amount: Vec::new(),
            tree: MerkleTree::new(),
            last_indexed_block: start_block,
        }
    }

    /// Number of leaves in the pool.
    pub fn leaf_count(&self) -> (r: usize)
        requires
            self.wf(),
        ensures
            r == self.tree.len_at(0),
    {
        self.tree.leaf_count()
    }

    /// Whether a commitment, given as its canonical hex, is already indexed.
    pub fn contains_commitment(&self, commitment_hex: &String) -> (r: bool)
        requires
            self.wf(),
        ensures
            r == (lookup_index(self.commitments@, commitment_hex@) is Some),
    {
        find_index(&self.commitments, commitment_hex).is_some()
    }

    /// Idempotent leaf ingestion: a commitment already present leaves the
    /// pool exactly as it was; a new one is appended to the tree at the next
    /// free index and entered into all three indexes, the note mapping with
    /// last write winning.
    pub fn add_leaf(&mut self, commitment: &Fe, note_hash_hex: Option<String>, amount_hex: String) -> (r: AddOutcome)
        requires
            old(self).wf(),
            commitment.wf(),
            old(self).tree.len_at(0) < TREE_CAPACITY,
        ensures
            final(self).wf(),
            ({
                let key = canonical_hex_chars(commitment.bytes@);
                let n = old(self).commitments@.len() as int;
                if lookup_index(old(self).commitments@, key) is Some {
                    r == AddOutcome::Duplicate && *final(self) == *old(self)
                } else {
                    &&& r == AddOutcome::Added(n as u64)
                    &&& final(self).commitments@.len() == n + 1
                    &&& forall|i: int|
                        0 <= i < n ==> #[trigger] final(self).commitments@[i] == old(
                            self).commitments@[i]
                    &&& final(self).commitments@[n].0@ == key
                    &&& final(self).tree.len_at(0) == n + 1
                    &&& final(self).tree.levels@[0]@[n].val() == commitment.val()
                    &&& final(self).tree.levels@[0]@[n].bytes@ == commitment.bytes@
                    &&& forall|i: int|
                        0 <= i < n ==> #[trigger] final(self).tree.levels@[0]@[i] == old(
                            self).tree.levels@[0]@[i]
                    &&& (match note_hash_hex {
                        Some(nh) => lookup_str(final(self).note_to_commitment@, nh@) == Some(key)
                            && forall|k2: Seq<char>|
                            k2 != nh@ ==> #[trigger] lookup_str(
                                final(self).note_to_commitment@,
                                k2,
                            ) == lookup_str(old(self).note_to_commitment@, k2),
                        None => final(self).note_to_commitment@ == old(self).note_to_commitment@,
                    })
                    &&& final(self).commitment_to_amount@.len() == old(
                        self).commitment_to_amount@.len() + 1
                    &&& forall|i: int|
                        0 <= i < old(self).commitment_to_amount@.len()
                            ==> #[trigger] final(self).commitment_to_amount@[i] == old(
                            self).commitment_to_amount@[i]
                    &&& final(self).commitment_to_amount@.last().0@ == key
                    &&& final(self).commitment_to_amount@.last().1@ == amount_hex@
                    &&& final(self).last_indexed_block == old(self).last_indexed_block
                }
            }),
    {
        let key = to_canonical_hex(commitment);
        if find_index(&self.commitments, &key).is_some() {
            return AddOutcome::Duplicate;
        }
        let index = self.tree.leaf_count();
        let index64 = index as u64;
        self.tree.append(index, commitment);
        self.commitments.push((key.clone(), index64));
        self.commitment_to_amount.push((key.clone(), amount_hex));
        match note_hash_hex {
            Some(nh) => {
                upsert_str(&mut self.note_to_commitment, nh, key);
            },
            None => {},
        }
        AddOutcome::Added(index64)
    }

    /// Move the watermark forward to the head block of a completed cycle;
    /// it never goes backward, and nothing else changes.
    pub fn advance_watermark(&mut self, head: u64)
        requires
            old(self).wf(),
            old(self).last_indexed_block <= head,
        ensures
            final(self).wf(),
            final(self).last_indexed_block == head,
            final(self).last_indexed_block >= old(self).last_indexed_block,
            final(self).commitments@ == old(self).commitments@,
            final(self).note_to_commitment@ == old(self).note_to_commitment@,
            final(self).commitment_to_amount@ == old(self).commitment_to_amount@,
            final(self).tree == old(self).tree,
    {
        self.last_indexed_block = head;
    }
}


/// Equal canonical hex strings come from bytes worth the same integer.
proof fn lemma_canonical_hex_injective_val(b1: Seq<u8>, b2: Seq<u8>)
    requires
        canonical_hex_chars(b1) == canonical_hex_chars(b2),
    ensures
        crate::field::be_nat(b1) == crate::field::be_nat(b2),
{
    crate::field::lemma_hcb_props(b1);
    crate::field::lemma_hcb_props(b2);
    assert(crate::field::hex_chars_of_bytes(b1) =~= canonical_hex_chars(b1).skip(2));
    assert(crate::field::hex_chars_of_bytes(b2) =~= canonical_hex_chars(b2).skip(2));
    assert(crate::field::hex_chars_of_bytes(b1) == crate::field::hex_chars_of_bytes(b2));
}

impl AppState {
    /// Rebuild the pool from the durable store: replay the stored leaves in
    /// index order through the same ingestion path, then adopt the stored
    /// watermark, or the configured start block if none was stored.  A store
    /// that cannot be replayed faithfully -- an unparseable commitment, a
    /// gap or disorder in the indices, a duplicate, or more rows than the
    /// tree can hold -- is refused, and a refusal happens only on such a
    /// store.
    pub fn hydrate(rows: Vec<LeafRow>, start_block: u64, stored_block: Option<u64>) -> (r: Result<
        AppState,
        HydrateError,
    >)
        ensures
            r is Err ==> !rows_ok(rows@),
            r matches Ok(st) ==> {
                &&& st.wf()
                &&& st.tree.len_at(0) == rows@.len()
                &&& forall|i: int|
                    0 <= i < rows@.len() ==> (#[trigger] st.tree.levels@[0]@[i]).val() == row_val(
                        rows@[i])
                &&& st.last_indexed_block == (match stored_block {
                    Some(b) => b,
                    None => start_block,
                })
            },
    {
        let wm: u64 = match stored_block {
            Some(b) => b,
            None => start_block,
        };
        let mut st = AppState::new(wm);
        let mut i: usize = 0;
        while i < rows.len()
            invariant
                st.wf(),
                i <= rows@.len(),
                st.tree.len_at(0) == i,
                st.last_indexed_block == wm,
                forall|j: int|
                    0 <= j < i ==> (#[trigger] st.tree.levels@[0]@[j]).val() == row_val(rows@[j]),
            decreases rows@.len() - i,
        {
            if st.tree.leaf_count() == TREE_CAPACITY {
                proof {
                    assert(rows@.len() > TREE_CAPACITY);
                }
                return Err(HydrateError::Oversize);
            }
            let row = &rows[i];
            let fe = match from_hex(row.commitment_hex.as_str()) {
                Ok(fe) => fe,
                Err(_) => {
                    proof {
                        assert(!valid_hex(rows@[i as int].commitment_hex@));
                    }
                    return Err(HydrateError::BadCommitment);
                },
            };
            if row.leaf_index != i as u64 {
                return Err(HydrateError::IndexMismatch);
            }
            let note = match &row.note_hash_hex {
                Some(nh) => Some(nh.clone()),
                None => None,
            };
            let outcome = st.add_leaf(&fe, note, row.amount_hex.clone());
            match outcome {
                AddOutcome::Duplicate => {
                    proof {
                        let key = canonical_hex_chars(fe.bytes@);
                        match lookup_index(st.commitments@, key) {
                            Some(v) => {
                                lemma_lookup_index_some(st.commitments@, key, v);
                                let j = choose|j: int|
                                    0 <= j < st.commitments@.len() && (
                                    #[trigger] st.commitments@[j]).0@ == key
                                        && st.commitments@[j].1 == v;
                                lemma_canonical_hex_injective_val(
                                    st.tree.levels@[0]@[j].bytes@,
                                    fe.bytes@,
                                );
                                assert(row_val(rows@[j]) == row_val(rows@[i as int]));
                                assert(!rows_ok(rows@));
                            },
                            None => {
                                assert(false);
                            },
                        }
                    }
                    return Err(HydrateError::DuplicateCommitment);
                },
                AddOutcome::Added(_) => {},
            }
            i = i + 1;
        }
        Ok(st)
    }

    /// The commitment a query resolves to: a supplied note identifier that
    /// the note index knows wins; otherwise the supplied commitment string
    /// is used as it came.
    pub open spec fn resolved_commitment(
        &self,
        commitment: Seq<char>,
        note: Option<Seq<char>>,
    ) -> Seq<char> {
        match note {
            Some(n) => match lookup_str(self.note_to_commitment@, n) {
                Some(c) => c,
                None => commitment,
            },
            None => commitment,
        }
    }

    /// Resolve a commitment or note identifier to an inclusion-path snapshot.
    /// An unknown commitment is not an error: it draws the defined sentinel
    /// answer -- zero root, empty path and directions, index 0, zero amount,
    /// the resolved commitment echoed back.
    pub fn get_merkle_path(&self, commitment: String, note_hash: Option<String>) -> (r:
        MerklePathResponse)
        requires
            self.wf(),
        ensures
            r.commitment@ == self.resolved_commitment(
                commitment@,
                match note_hash {
                    Some(nh) => Some(nh@),
                    None => None,
                },
            ),
            match lookup_index(self.commitments@, r.commitment@) {
                None => r.root@ == seq!['0', 'x', '0'] && r.path@.len() == 0 && r.indices@.len()
                    == 0 && r.index == 0 && r.amount@ == seq!['0', 'x', '0'],
                Some(idx) => {
                    &&& r.index == idx
                    &&& r.root@ == canonical_hex_chars(
                        self.tree.node_fe(TREE_HEIGHT as int, 0).bytes@,
                    )
                    &&& r.path@.len() == TREE_HEIGHT
                    &&& r.indices@.len() == TREE_HEIGHT
                    &&& forall|k: int|
                        0 <= k < TREE_HEIGHT ==> (#[trigger] r.path@[k])@ == canonical_hex_chars(
                            self.tree.node_fe(k, sib_index(anc_index(idx as int, k))).bytes@,
                        )
                    &&& forall|k: int|
                        0 <= k < TREE_HEIGHT ==> #[trigger] r.indices@[k] == (anc_index(
                            idx as int,
                            k,
                        ) % 2) as u8
                    &&& r.amount@ == (match lookup_str(self.commitment_to_amount@, r.commitment@) {
                        Some(a) => a,
                        None => seq!['0', 'x', '0'],
                    })
                },
            },
    {
        let target: String = match &note_hash {
            Some(nh) => match find_str(&self.note_to_commitment, nh) {
                Some(i) => self.note_to_commitment[i].1.clone(),
                None => commitment,
            },
            None => commitment,
        };
        match find_index(&self.commitments, &target) {
            None => {
                proof {
                    reveal_strlit("0x0");
                    assert("0x0"@ =~= seq!['0', 'x', '0']);
                }
                MerklePathResponse {
                    root: String::from_str("0x0"),
                    path: Vec::new(),
                    indices: Vec::new(),
                    index: 0,
                    amount: String::from_str("0x0"),
                    commitment: target,
                }
            },
            Some(idx) => {
                proof {
                    lemma_lookup_index_some(self.commitments@, target@, idx);
                }
                let index = idx as usize;
                let (sibs, dirs) = self.tree.path_of(index);
                let mut path: Vec<String> = Vec::new();
                let mut k: usize = 0;
                while k < TREE_HEIGHT
                    invariant
                        self.wf(),
                        k <= TREE_HEIGHT,
                        sibs@.len() == TREE_HEIGHT,
                        index as int == idx as int,
                        idx < TREE_CAPACITY,
                        forall|m: int|
                            0 <= m < TREE_HEIGHT ==> (#[trigger] sibs@[m]).wf() && sibs@[m].bytes@
                                == self.tree.node_fe(
                                m,
                                sib_index(anc_index(idx as int, m)),
                            ).bytes@,
                        path@.len() == k,
                        forall|m: int|
                            0 <= m < k ==> (#[trigger] path@[m])@ == canonical_hex_chars(
                                self.tree.node_fe(m, sib_index(anc_index(idx as int, m))).bytes@,
                            ),
                    decreases TREE_HEIGHT - k,
                {
                    path.push(to_canonical_hex(&sibs[k]));
                    k = k + 1;
                }
                let root_fe = self.tree.root();
                let root = to_canonical_hex(&root_fe);
                let amount = match find_str(&self.commitment_to_amount, &target) {
                    Some(i) => self.commitment_to_amount[i].1.clone(),
                    None => {
                        proof {
                            reveal_strlit("0x0");
                            assert("0x0"@ =~= seq!['0', 'x', '0']);
                        }
                        String::from_str("0x0")
                    },
                };
                MerklePathResponse {
                    root,
                    path,
                    indices: dirs,
                    index: idx,
                    amount,
                    commitment: target,
                }
            },
        }
    }
}

/// Synchronizer resume: two pools whose trees hold the same stored rows --
/// as after a restart that replays the durable store -- carry the same root.
pub proof fn lemma_resume_reproduces_root(a: AppState, b: AppState, rows: Seq<LeafRow>)
    requires
        a.wf(),
        b.wf(),
        a.tree.len_at(0) == rows.len(),
        b.tree.len_at(0) == rows.len(),
        forall|i: int|
            0 <= i < rows.len() ==> (#[trigger] a.tree.levels@[0]@[i]).val() == row_val(rows[i]),
        forall|i: int|
            0 <= i < rows.len() ==> (#[trigger] b.tree.levels@[0]@[i]).val() == row_val(rows[i]),
    ensures
        a.tree.root_val() == b.tree.root_val(),
{
    crate::tree::lemma_root_determined_by_leaves(a.tree, b.tree);
}

} // verus!
