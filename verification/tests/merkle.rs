use windexer_core::merkle::{MerkleTree, ProofStep};

fn leaf(b: u8) -> [u8; 32] {
    [b; 32]
}

fn build(depth: usize, leaves: &[u8]) -> MerkleTree {
    let mut t = MerkleTree::new(depth);
    for &b in leaves {
        assert!(t.append(leaf(b)));
    }
    t
}

#[test]
fn empty_tree_has_zero_root() {
    let t = MerkleTree::new(4);
    assert_eq!(t.root(), [0u8; 32]);
    assert_eq!(t.leaf_len(), 0);
}

#[test]
fn append_changes_root() {
    let mut t = MerkleTree::new(4);
    let r0 = t.root();
    assert!(t.append(leaf(1)));
    let r1 = t.root();
    assert!(t.append(leaf(2)));
    let r2 = t.root();
    assert_ne!(r0, r1);
    assert_ne!(r1, r2);
    assert_eq!(t.leaf_len(), 2);
}

#[test]
fn append_fails_when_full() {
    let mut t = MerkleTree::new(2);
    for b in 0..4u8 {
        assert!(t.append(leaf(b)));
    }
    let before = t.root();
    assert!(!t.append(leaf(9)));
    assert_eq!(t.root(), before);
    assert_eq!(t.leaf_len(), 4);
}

#[test]
fn generated_proofs_verify_for_every_leaf() {
    for n in 1..=8usize {
        let leaves: Vec<u8> = (10..10 + n as u8).collect();
        let t = build(3, &leaves);
        for i in 0..n {
            let proof = t.generate_proof(i);
            assert!(t.verify_proof(&proof, leaf(leaves[i]), i), "leaf {} of {}", i, n);
        }
    }
}

#[test]
fn tampered_proof_fails() {
    let t = build(3, &[1, 2, 3, 4, 5]);
    let idx = 2usize;
    let good = t.generate_proof(idx);
    assert!(t.verify_proof(&good, leaf(3), idx));

    // Flip one byte of one sibling digest.
    for entry in 0..good.len() {
        let mut bad: Vec<ProofStep> = good
            .iter()
            .map(|s| ProofStep { sibling: s.sibling, is_left: s.is_left })
            .collect();
        bad[entry].sibling[7] ^= 1;
        assert!(!t.verify_proof(&bad, leaf(3), idx), "entry {}", entry);
    }

    // Flip a position flag.
    let mut flipped: Vec<ProofStep> = good
        .iter()
        .map(|s| ProofStep { sibling: s.sibling, is_left: s.is_left })
        .collect();
    flipped[0].is_left = !flipped[0].is_left;
    assert!(!t.verify_proof(&flipped, leaf(3), idx));

    // Wrong leaf, wrong index.
    assert!(!t.verify_proof(&good, leaf(4), idx));
    assert!(!t.verify_proof(&good, leaf(3), idx + 1));
}

#[test]
fn update_changes_root_and_reproves() {
    let mut t = build(3, &[1, 2, 3, 4, 5, 6, 7, 8]);
    let old_root = t.root();
    t.update(0, leaf(99));
    let new_root = t.root();
    assert_ne!(old_root, new_root);

    // The updated leaf proves against the new root.
    let proof = t.generate_proof(0);
    assert!(t.verify_proof(&proof, leaf(99), 0));
    // The stale leaf value no longer proves.
    assert!(!t.verify_proof(&proof, leaf(1), 0));
}

#[test]
fn update_leaves_far_proof_entries_alone() {
    let mut t = build(3, &[1, 2, 3, 4, 5, 6, 7, 8]);
    let before = t.generate_proof(7);
    t.update(0, leaf(42));
    let after = t.generate_proof(7);
    assert_eq!(before.len(), after.len());
    // Leaf 7's path meets leaf 0's path only at the top: the low-level
    // entries are untouched, the entry beside the merge point changes.
    assert_eq!(before[0].sibling, after[0].sibling);
    assert_eq!(before[1].sibling, after[1].sibling);
    assert_ne!(before[2].sibling, after[2].sibling);
    // And leaf 7 still proves against the new root.
    assert!(t.verify_proof(&after, leaf(8), 7));
}

#[test]
fn update_out_of_bounds_is_a_no_op() {
    let mut t = build(3, &[1, 2, 3]);
    let root = t.root();
    t.update(3, leaf(50));
    t.update(100, leaf(50));
    assert_eq!(t.root(), root);
    assert_eq!(t.leaf_len(), 3);
}

#[test]
fn proofs_skip_absent_siblings() {
    // One leaf in a depth-3 tree: no level has a sibling for it.
    let t = build(3, &[5]);
    let proof = t.generate_proof(0);
    assert_eq!(proof.len(), 0);
    assert!(t.verify_proof(&proof, leaf(5), 0));
    // Extra entries are rejected.
    let padded = vec![ProofStep { sibling: [0u8; 32], is_left: false }];
    assert!(!t.verify_proof(&padded, leaf(5), 0));
}
