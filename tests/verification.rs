use ethereum_hashing::hash32_concat;
use merkle_partial::merkle_tree_overlay::Shape;
use merkle_partial::node::{Error, PathElement};
use merkle_partial::partial::{build_records, recompute_root, verify_records};
use merkle_partial::ser::{deserialize, serialize};

/// A complete tree of height 3 over eight distinct leaf chunks.
fn hashed_tree() -> Vec<Vec<u8>> {
    let mut tree: Vec<Vec<u8>> = vec![vec![0u8; 32]; 15];
    for i in 7..15 {
        tree[i] = vec![i as u8 * 3 + 1; 32];
    }
    for i in (0..7).rev() {
        tree[i] = hash32_concat(&tree[2 * i + 1], &tree[2 * i + 2]).to_vec();
    }
    tree
}

#[test]
fn built_proof_verifies_against_true_root() {
    let tree = hashed_tree();
    for leaf in 7..15u64 {
        let records = build_records(&tree, &vec![leaf]);
        assert_eq!(verify_records(&records, &vec![leaf], &tree[0]), Ok(()));
    }
    let records = build_records(&tree, &vec![8, 13]);
    assert_eq!(verify_records(&records, &vec![8, 13], &tree[0]), Ok(()));
}

#[test]
fn recomputed_root_is_the_hash_of_the_children() {
    let tree = hashed_tree();
    let records = build_records(&tree, &vec![10]);
    assert_eq!(recompute_root(&records), Some(tree[0].clone()));
    assert_ne!(tree[0], tree[1]);
}

#[test]
fn mutated_chunk_fails_verification() {
    let tree = hashed_tree();
    let records = build_records(&tree, &vec![9]);
    for k in 0..records.len() {
        let mut bad = records.clone();
        bad[k].chunk[0] ^= 1;
        assert_eq!(
            verify_records(&bad, &vec![9], &tree[0]),
            Err(Error::VerificationFailed)
        );
    }
}

#[test]
fn missing_sibling_or_leaf_fails_verification() {
    let tree = hashed_tree();
    let records = build_records(&tree, &vec![9]);
    let without_sibling: Vec<_> = records.iter().filter(|r| r.index != 10).cloned().collect();
    assert_eq!(recompute_root(&without_sibling), None);
    assert_eq!(
        verify_records(&without_sibling, &vec![9], &tree[0]),
        Err(Error::VerificationFailed)
    );
    // The records still hash up, but the requested leaf 11 is not among them.
    assert_eq!(
        verify_records(&records, &vec![11], &tree[0]),
        Err(Error::VerificationFailed)
    );
}

#[test]
fn path_to_proof_to_bytes_and_back() {
    // A vector of eight 32-byte scalars: element 2 sits at generalized index 9.
    let shape = Shape::fixed_vector(Shape::basic(32), 8);
    let leaf = shape
        .get_node(vec![PathElement::Index(2)])
        .unwrap()
        .get_index();
    assert_eq!(leaf, 9);
    let tree = hashed_tree();
    let bytes = serialize(&build_records(&tree, &vec![leaf]));
    let records = deserialize(&bytes).unwrap();
    assert_eq!(verify_records(&records, &vec![leaf], &tree[0]), Ok(()));
}
