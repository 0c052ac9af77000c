use stark_core::matrix::RowMajorMatrix;
use stark_core::merkle_tree::{commit, verify_batch, MmcsError};

fn matrix(values: Vec<u64>, width: usize) -> RowMajorMatrix {
    RowMajorMatrix::new(values, width).unwrap()
}

#[test]
fn mmcs_roundtrip_single_matrix() {
    let m = matrix((0..8u64).collect(), 2);
    let (root, tree) = commit(vec![m]).unwrap();
    for index in 0..4 {
        let (opened, path) = tree.open_batch(index);
        let dims = vec![tree.matrices[0].dimensions()];
        assert_eq!(verify_batch(&root, &dims, index, &opened, &path), Ok(()));
    }
}

#[test]
fn mmcs_roundtrip_mixed_heights() {
    // Heights 8 and 2: the shorter matrix's rows are replicated over
    // consecutive leaves.
    let tall = matrix((0..16u64).collect(), 2);
    let short = matrix(vec![100, 101, 102, 103, 104, 105], 3);
    let (root, tree) = commit(vec![tall, short]).unwrap();
    for index in 0..8 {
        let (opened, path) = tree.open_batch(index);
        assert_eq!(opened.len(), 2);
        // The short matrix contributes row index / (8 / 2).
        let expect_row = index / 4;
        assert_eq!(opened[1][0], 100 + 3 * expect_row as u64);
        let dims = vec![tree.matrices[0].dimensions(), tree.matrices[1].dimensions()];
        assert_eq!(verify_batch(&root, &dims, index, &opened, &path), Ok(()));
    }
}

#[test]
fn mmcs_mutated_row_is_rejected() {
    let m = matrix((0..8u64).collect(), 2);
    let (root, tree) = commit(vec![m]).unwrap();
    let (mut opened, path) = tree.open_batch(1);
    opened[0][0] += 1;
    let dims = vec![tree.matrices[0].dimensions()];
    assert_eq!(
        verify_batch(&root, &dims, 1, &opened, &path),
        Err(MmcsError::RootMismatch),
    );
}

#[test]
fn mmcs_mutated_sibling_is_rejected() {
    let m = matrix((0..8u64).collect(), 2);
    let (root, tree) = commit(vec![m]).unwrap();
    let (opened, mut path) = tree.open_batch(2);
    path[0][0] = (path[0][0] + 1) % 2013265921;
    let dims = vec![tree.matrices[0].dimensions()];
    assert_eq!(
        verify_batch(&root, &dims, 2, &opened, &path),
        Err(MmcsError::RootMismatch),
    );
}

#[test]
fn mmcs_wrong_dimensions_is_rejected() {
    let m = matrix((0..8u64).collect(), 2);
    let (root, tree) = commit(vec![m]).unwrap();
    let (opened, path) = tree.open_batch(0);
    let dims = vec![stark_core::matrix::Dimensions { width: 3, height: 4 }];
    assert_eq!(
        verify_batch(&root, &dims, 0, &opened, &path),
        Err(MmcsError::DimensionMismatch),
    );
}

#[test]
fn mmcs_non_power_of_two_height_is_rejected() {
    let m = matrix((0..6u64).collect(), 2);
    match commit(vec![m]) {
        Err(e) => assert_eq!(e, MmcsError::DimensionMismatch),
        Ok(_) => panic!("a ragged batch must be rejected"),
    }
}

#[test]
fn mmcs_empty_batch_is_rejected() {
    match commit(vec![]) {
        Err(e) => assert_eq!(e, MmcsError::DimensionMismatch),
        Ok(_) => panic!("an empty batch must be rejected"),
    }
}
