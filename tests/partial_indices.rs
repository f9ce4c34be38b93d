use merkle_partial::merkle_tree_overlay::Shape;
use merkle_partial::node::{Error, PathElement};
use merkle_partial::partial::{build_records, covers, proof_indices, required_helper_indices};
use merkle_partial::ser::{deserialize, serialize};

fn sorted(mut v: Vec<u64>) -> Vec<u64> {
    v.sort();
    v
}

#[test]
fn single_leaf_needs_one_sibling_per_level() {
    assert_eq!(sorted(proof_indices(&vec![7])), vec![2, 4, 8]);
}

#[test]
fn sibling_leaves_share_their_ancestors() {
    assert_eq!(sorted(proof_indices(&vec![7, 8])), vec![2, 4]);
    assert_eq!(sorted(proof_indices(&vec![8, 7, 8])), vec![2, 4]);
}

#[test]
fn leaves_in_both_halves() {
    // 3 -> siblings 4, 2; 6 -> siblings 5, 1; nodes on a branch are left out.
    assert_eq!(sorted(proof_indices(&vec![3, 6])), vec![4, 5]);
}

#[test]
fn root_and_empty_requests_need_nothing() {
    assert_eq!(proof_indices(&vec![]), Vec::<u64>::new());
    assert_eq!(proof_indices(&vec![0]), Vec::<u64>::new());
}

#[test]
fn helper_indices_for_resolved_paths() {
    let s = Shape::fixed_vector(Shape::basic(32), 8);
    let r = required_helper_indices(&s, &vec![vec![PathElement::Index(0)]]).unwrap();
    assert_eq!(sorted(r), vec![2, 4, 8]);

    let l = Shape::variable_list(Shape::basic(32), 8);
    let r = required_helper_indices(
        &l,
        &vec![vec![PathElement::Ident("len".to_string())], vec![PathElement::Index(7)]],
    )
    .unwrap();
    // len is 2; element 7 is 22, with siblings 21, 9, 3 and the length on its branch's sibling.
    assert_eq!(sorted(r), vec![3, 9, 21]);
}

#[test]
fn helper_indices_report_the_first_failing_path() {
    let s = Shape::fixed_vector(Shape::basic(32), 8);
    assert_eq!(
        required_helper_indices(
            &s,
            &vec![
                vec![PathElement::Index(1)],
                vec![PathElement::Index(8)],
                vec![PathElement::Ident("len".to_string())]
            ]
        ),
        Err(Error::IndexOutOfBounds(8))
    );
}

#[test]
fn complete_proof_covers_its_leaves() {
    assert!(covers(&vec![8, 4, 7, 2], &vec![7]));
    assert!(covers(&vec![2, 4, 7, 8], &vec![7, 8]));
}

#[test]
fn proof_missing_a_sibling_or_leaf_is_incomplete() {
    // Sibling 4 is missing.
    assert!(!covers(&vec![7, 8, 2], &vec![7]));
    // The requested leaf itself is missing.
    assert!(!covers(&vec![8, 4, 2], &vec![7]));
}

fn full_tree() -> Vec<Vec<u8>> {
    (0..15u8).map(|i| vec![i; 32]).collect()
}

#[test]
fn records_hold_leaf_and_helper_chunks() {
    let tree = full_tree();
    let records = build_records(&tree, &vec![7]);
    let mut indices: Vec<u64> = records.iter().map(|r| r.index).collect();
    indices.sort();
    assert_eq!(indices, vec![2, 4, 7, 8]);
    for r in &records {
        assert_eq!(r.chunk, vec![r.index as u8; 32]);
    }
}

#[test]
fn repeated_leaves_give_one_record_each() {
    let tree = full_tree();
    let records = build_records(&tree, &vec![7, 8, 7]);
    let mut indices: Vec<u64> = records.iter().map(|r| r.index).collect();
    indices.sort();
    assert_eq!(indices, vec![2, 4, 7, 8]);
    let bytes = serialize(&records);
    assert_eq!(deserialize(&bytes), Ok(records));
}
