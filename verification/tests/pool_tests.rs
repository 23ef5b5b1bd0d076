use asp_server::field::{from_hex, to_canonical_hex, Fe};
use asp_server::hash::bn254_poseidon;
use asp_server::state::{AddOutcome, AppState, LeafRow};
use asp_server::sync::{decode_deposit, plan_sync};
use asp_server::tree::{MerkleTree, TREE_HEIGHT};

fn fe(s: &str) -> Fe {
    from_hex(s).unwrap()
}

fn zeros_chain() -> Vec<Fe> {
    let mut zs = vec![fe("0x0")];
    for k in 1..=TREE_HEIGHT {
        let z = bn254_poseidon(&zs[k - 1], &zs[k - 1]);
        zs.push(z);
    }
    zs
}

#[test]
fn empty_tree_baseline() {
    // with zero leaves the root is the empty-subtree hash of the full height,
    // and every sibling of any path is the empty-subtree hash of its level
    let t = MerkleTree::new();
    let zs = zeros_chain();
    assert_eq!(to_canonical_hex(&t.root()), to_canonical_hex(&zs[TREE_HEIGHT]));
    let (sibs, dirs) = t.path_of(12345);
    assert_eq!(sibs.len(), TREE_HEIGHT);
    assert_eq!(dirs.len(), TREE_HEIGHT);
    for k in 0..TREE_HEIGHT {
        assert_eq!(to_canonical_hex(&sibs[k]), to_canonical_hex(&zs[k]));
    }
}

#[test]
fn add_leaf_is_idempotent() {
    // a second insertion of the same commitment changes nothing
    let mut st = AppState::new(0);
    let c = fe("0xaa11");
    let first = st.add_leaf(&c, Some("0x01".to_string()), "0x64".to_string());
    assert_eq!(first, AddOutcome::Added(0));
    let root_before = st.tree.root();
    let second = st.add_leaf(&c, Some("0x01".to_string()), "0x64".to_string());
    assert_eq!(second, AddOutcome::Duplicate);
    assert_eq!(st.leaf_count(), 1);
    assert!(st.tree.root().same(&root_before));
}

#[test]
fn three_leaves_path_and_root() {
    // append three commitments; the path of index 1 starts as a right child
    // and recomputes the stored root, which equals the manual hash tower
    let mut st = AppState::new(0);
    let c0 = fe("0x0a");
    let c1 = fe("0x0b");
    let c2 = fe("0x0c");
    assert_eq!(st.add_leaf(&c0, None, "0x1".to_string()), AddOutcome::Added(0));
    assert_eq!(st.add_leaf(&c1, None, "0x1".to_string()), AddOutcome::Added(1));
    assert_eq!(st.add_leaf(&c2, None, "0x1".to_string()), AddOutcome::Added(2));

    let (sibs, dirs) = st.tree.path_of(1);
    assert_eq!(dirs[0], 1u8);
    for k in 1..TREE_HEIGHT {
        assert_eq!(dirs[k], 0u8);
    }
    // leaves are stored as raw field values, so the first sibling is c0 itself
    assert_eq!(to_canonical_hex(&sibs[0]), to_canonical_hex(&c0));

    // manual root: hash2(hash2(c0, c1), hash2(c2, zero[0])), then the zero tower
    let zs = zeros_chain();
    let n01 = bn254_poseidon(&c0, &c1);
    let n23 = bn254_poseidon(&c2, &zs[0]);
    let mut acc = bn254_poseidon(&n01, &n23);
    for k in 2..TREE_HEIGHT {
        acc = bn254_poseidon(&acc, &zs[k]);
    }
    assert_eq!(to_canonical_hex(&st.tree.root()), to_canonical_hex(&acc));

    // recompute the root from the path of index 1
    let mut cur = c1;
    for k in 0..TREE_HEIGHT {
        cur = if dirs[k] == 0 {
            bn254_poseidon(&cur, &sibs[k])
        } else {
            bn254_poseidon(&sibs[k], &cur)
        };
    }
    assert_eq!(to_canonical_hex(&cur), to_canonical_hex(&st.tree.root()));
}

#[test]
fn query_resolves_note_and_commitment() {
    let mut st = AppState::new(0);
    let c = fe("0xaa22");
    st.add_leaf(&c, Some("0x0note".to_string()), "0x64".to_string());
    let chex = to_canonical_hex(&c);

    // by commitment
    let r = st.get_merkle_path(chex.clone(), None);
    assert_eq!(r.index, 0);
    assert_eq!(r.commitment, chex);
    assert_eq!(r.amount, "0x64");
    assert_eq!(r.path.len(), TREE_HEIGHT);
    assert_eq!(r.root, to_canonical_hex(&st.tree.root()));

    // by note identifier: the mapped commitment wins over the supplied string
    let r2 = st.get_merkle_path("0xffff".to_string(), Some("0x0note".to_string()));
    assert_eq!(r2.commitment, chex);
    assert_eq!(r2.index, 0);
}

#[test]
fn unknown_commitment_yields_sentinel() {
    let mut st = AppState::new(0);
    st.add_leaf(&fe("0x77"), None, "0x1".to_string());
    let r = st.get_merkle_path("0xdoesnotparse".to_string(), None);
    assert_eq!(r.root, "0x0");
    assert!(r.path.is_empty());
    assert!(r.indices.is_empty());
    assert_eq!(r.index, 0);
    assert_eq!(r.amount, "0x0");
    assert_eq!(r.commitment, "0xdoesnotparse");
}

#[test]
fn hydrate_reproduces_root_after_restart() {
    // build a pool, write its rows out, replay them: identical root
    let mut st = AppState::new(0);
    let cs = [fe("0x11"), fe("0x22"), fe("0x33")];
    let mut rows: Vec<LeafRow> = Vec::new();
    for (i, c) in cs.iter().enumerate() {
        st.add_leaf(c, Some(format!("0x{:02}", i)), "0x5".to_string());
        rows.push(LeafRow {
            commitment_hex: to_canonical_hex(c),
            leaf_index: i as u64,
            note_hash_hex: Some(format!("0x{:02}", i)),
            amount_hex: "0x5".to_string(),
        });
    }
    st.advance_watermark(42);
    let st2 = AppState::hydrate(rows, 7, Some(42)).unwrap();
    assert_eq!(st2.last_indexed_block, 42);
    assert_eq!(st2.leaf_count(), 3);
    assert_eq!(to_canonical_hex(&st2.tree.root()), to_canonical_hex(&st.tree.root()));
}

#[test]
fn hydrate_rejects_bad_stores() {
    let row = |hexs: &str, idx: u64| LeafRow {
        commitment_hex: hexs.to_string(),
        leaf_index: idx,
        note_hash_hex: None,
        amount_hex: "0x0".to_string(),
    };
    assert!(AppState::hydrate(vec![row("0xzz", 0)], 0, None).is_err());
    assert!(AppState::hydrate(vec![row("0x11", 1)], 0, None).is_err());
    assert!(AppState::hydrate(vec![row("0x11", 0), row("0x11", 1)], 0, None).is_err());
    // when no watermark row was stored, the start block is adopted
    let st = AppState::hydrate(Vec::new(), 9, None).unwrap();
    assert_eq!(st.last_indexed_block, 9);
}

#[test]
fn watermark_only_moves_forward() {
    let mut st = AppState::new(5);
    assert_eq!(plan_sync(st.last_indexed_block, 5), None);
    assert_eq!(plan_sync(st.last_indexed_block, 4), None);
    assert_eq!(plan_sync(st.last_indexed_block, 8), Some((6, 8)));
    st.advance_watermark(8);
    assert_eq!(st.last_indexed_block, 8);
    assert_eq!(plan_sync(st.last_indexed_block, 8), None);
    st.advance_watermark(8);
    assert_eq!(st.last_indexed_block, 8);
}

#[test]
fn decode_deposit_combines_note_halves() {
    let mut low = vec![0u8; 32];
    low[31] = 1;
    let mut high = vec![0u8; 32];
    high[31] = 1;
    let amount = vec![0u8; 32];
    let d = decode_deposit(&vec![low, high, amount]).unwrap();
    // note identifier is (high << 128) | low
    assert_eq!(
        d.note_hash_hex,
        "0x0000000000000000000000000000000100000000000000000000000000000001"
    );
    assert_eq!(d.amount_hex, "0x0");
    assert!(d.amount_fe.is_zero());
    // zero amount: the commitment is the reduced note identifier itself
    assert!(d.commitment.same(&d.note_fe));
    assert_eq!(
        to_canonical_hex(&d.note_fe),
        "0x0000000000000000000000000000000100000000000000000000000000000001"
    );
}

#[test]
fn decode_deposit_hashes_nonzero_amount() {
    let mut low = vec![0u8; 32];
    low[31] = 7;
    let high = vec![0u8; 32];
    let mut amount = vec![0u8; 32];
    amount[31] = 100;
    let d = decode_deposit(&vec![low, high, amount]).unwrap();
    assert_eq!(d.amount_hex, "0x64");
    let expect = bn254_poseidon(&d.note_fe, &d.amount_fe);
    assert!(d.commitment.same(&expect));
}

#[test]
fn decode_deposit_skips_short_events() {
    assert!(decode_deposit(&vec![]).is_none());
    assert!(decode_deposit(&vec![vec![0u8; 32], vec![0u8; 32]]).is_none());
}
