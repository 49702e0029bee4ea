use sha2::{Digest, Sha256};
use toyni::errors::StarkError;
use toyni::merkle::{hash_pair, verify_merkle_proof, MerkleProof, MerkleTree};

fn sha_digest(data: &[u8]) -> [u8; 32] {
    let mut hasher = Sha256::new();
    hasher.update(data);
    hasher.finalize().into()
}

fn leaf(n: u64) -> [u8; 32] {
    sha_digest(&n.to_le_bytes())
}

fn combined(left: &[u8; 32], right: &[u8; 32]) -> [u8; 32] {
    let mut data = Vec::new();
    data.extend_from_slice(left);
    data.extend_from_slice(right);
    sha_digest(&data)
}

#[test]
fn test_merkle_proof_verification() {
    // Create leaves
    let leaves = vec![leaf(1), leaf(2), leaf(3), leaf(4)];

    let tree = MerkleTree::new(leaves);
    let root = tree.root().unwrap();

    // Test proof for each leaf
    for i in 0..4 {
        let proof = tree.get_proof(i).unwrap();
        let leaf = sha_digest(&(i as u64 + 1).to_le_bytes());
        assert!(verify_merkle_proof(&leaf, &proof, &root));
    }
}

#[test]
fn test_merkle_proof_odd_leaves() {
    // Test with odd number of leaves
    let leaves = vec![leaf(1), leaf(2), leaf(3)];

    let tree = MerkleTree::new(leaves);
    let root = tree.root().unwrap();

    // Test proof for each leaf
    for i in 0..3 {
        let proof = tree.get_proof(i).unwrap();
        let leaf = sha_digest(&(i as u64 + 1).to_le_bytes());
        assert!(verify_merkle_proof(&leaf, &proof, &root));
    }
}

#[test]
fn test_merkle_proof_single_leaf() {
    // Test with single leaf
    let leaves = vec![leaf(1)];
    let tree = MerkleTree::new(leaves);
    let root = tree.root().unwrap();

    let proof = tree.get_proof(0).unwrap();
    let leaf = sha_digest(&1u64.to_le_bytes());
    assert!(verify_merkle_proof(&leaf, &proof, &root));
}

#[test]
fn single_leaf_is_its_own_root() {
    let tree = MerkleTree::new(vec![leaf(7)]);
    assert_eq!(tree.root(), Some(leaf(7)));
    let proof = tree.get_proof(0).unwrap();
    assert!(proof.path.is_empty());
    assert!(proof.position.is_empty());
    assert_eq!(tree.levels.len(), 1);
}

#[test]
fn hash_pair_is_sha256_of_the_concatenation() {
    let (a, b) = (leaf(1), leaf(2));
    assert_eq!(hash_pair(&a, &b), combined(&a, &b));
    assert_ne!(hash_pair(&a, &b), hash_pair(&b, &a));
    assert_ne!(hash_pair(&a, &b), a);
}

#[test]
fn two_leaves_hash_to_the_root() {
    let (a, b) = (leaf(1), leaf(2));
    let tree = MerkleTree::new(vec![a, b]);
    assert_eq!(tree.root(), Some(combined(&a, &b)));
    // The sibling of the left leaf stands on its right, and the other way round.
    let left = tree.get_proof(0).unwrap();
    assert_eq!(left.path, vec![b]);
    assert_eq!(left.position, vec![true]);
    let right = tree.get_proof(1).unwrap();
    assert_eq!(right.path, vec![a]);
    assert_eq!(right.position, vec![false]);
}

#[test]
fn three_leaves_pair_the_last_with_itself() {
    let (a, b, c) = (leaf(1), leaf(2), leaf(3));
    let tree = MerkleTree::new(vec![a, b, c]);
    let ab = combined(&a, &b);
    let cc = combined(&c, &c);
    assert_eq!(tree.levels.len(), 3);
    assert_eq!(tree.levels[1], vec![ab, cc]);
    assert_eq!(tree.root(), Some(combined(&ab, &cc)));
    let last = tree.get_proof(2).unwrap();
    assert_eq!(last.path, vec![c, ab]);
    assert_eq!(last.position, vec![true, false]);
    let first = tree.get_proof(0).unwrap();
    assert_eq!(first.path, vec![b, cc]);
    assert_eq!(first.position, vec![true, true]);
}

#[test]
fn four_leaves_have_three_levels() {
    let leaves = vec![leaf(1), leaf(2), leaf(3), leaf(4)];
    let tree = MerkleTree::new(leaves.clone());
    let left = combined(&leaves[0], &leaves[1]);
    let right = combined(&leaves[2], &leaves[3]);
    assert_eq!(tree.levels, vec![leaves.clone(), vec![left, right], vec![combined(&left, &right)]]);
    let proof = tree.get_proof(3).unwrap();
    assert_eq!(proof.path, vec![leaves[2], left]);
    assert_eq!(proof.position, vec![false, false]);
}

#[test]
fn every_opening_of_larger_trees_verifies() {
    for n in 1..20u64 {
        let leaves: Vec<[u8; 32]> = (0..n).map(leaf).collect();
        let tree = MerkleTree::new(leaves.clone());
        let root = tree.root().unwrap();
        for i in 0..n as usize {
            let proof = tree.get_proof(i).unwrap();
            assert!(verify_merkle_proof(&leaves[i], &proof, &root));
        }
    }
}

#[test]
fn wrong_leaf_or_root_does_not_verify() {
    let leaves = vec![leaf(1), leaf(2), leaf(3), leaf(4)];
    let tree = MerkleTree::new(leaves);
    let root = tree.root().unwrap();
    let proof = tree.get_proof(1).unwrap();
    assert!(!verify_merkle_proof(&leaf(1), &proof, &root));
    assert!(!verify_merkle_proof(&leaf(2), &proof, &leaf(9)));
    let flipped = MerkleProof { path: proof.path.clone(), position: vec![true, false] };
    assert!(!verify_merkle_proof(&leaf(2), &flipped, &root));
}

#[test]
fn opening_beyond_the_leaves_is_refused() {
    let tree = MerkleTree::new(vec![leaf(1), leaf(2)]);
    assert_eq!(tree.get_proof(2).err(), Some(StarkError::IndexOutOfRange));
    assert_eq!(tree.get_proof(usize::MAX).err(), Some(StarkError::IndexOutOfRange));
}

#[test]
fn tree_without_leaves_has_no_root() {
    let tree = MerkleTree::new(Vec::new());
    assert_eq!(tree.root(), None);
    assert_eq!(tree.get_proof(0).err(), Some(StarkError::IndexOutOfRange));
}

#[test]
fn build_tree_appends_the_levels() {
    let mut tree = MerkleTree { leaves: vec![leaf(1), leaf(2)], levels: Vec::new() };
    tree.build_tree();
    assert_eq!(tree.levels.len(), 2);
    assert_eq!(tree.levels[0], tree.leaves);
}
