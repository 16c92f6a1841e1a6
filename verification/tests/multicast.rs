use network_shapley::error::ShapleyError;
use network_shapley::multicast::{
    build_j1_matrix, build_j2_matrix, compute_j1_minus_j2, extract_mcast_eligible_columns,
    hstack_matrices,
};
use network_shapley::quantity::Real;
use network_shapley::sparse::{from_triplets, CscMatrix};
use network_shapley::types::ConsolidatedLink;

fn exact(x: f64) -> Real {
    Real { bits: x.to_bits() }
}

fn edge(a: &str, b: &str, operator: &str, shared: u32) -> ConsolidatedLink {
    ConsolidatedLink {
        device1: a.to_string(),
        device2: b.to_string(),
        latency: exact(0.0),
        bandwidth: exact(10.0),
        operator1: operator.to_string(),
        operator2: operator.to_string(),
        shared,
        link_type: 0,
    }
}

fn dense(rows: &[&[f64]]) -> CscMatrix<Real> {
    let table: Vec<Vec<Real>> =
        rows.iter().map(|r| r.iter().map(|&x| exact(x)).collect()).collect();
    CscMatrix::from_dense(&table, rows[0].len())
}

#[test]
fn test_build_j2_matrix_empty_ineligible() {
    let links = vec![edge("A", "B", "Op1", 1), edge("B", "C", "Op2", 2)];
    let mcast_ineligible: Vec<usize> = vec![];
    let max_shared = 2;

    let j2 = build_j2_matrix(&links, &mcast_ineligible, max_shared).unwrap();

    assert_eq!(j2.nnz(), 0);
    assert_eq!(j2.m, max_shared);
    assert_eq!(j2.n, links.len());
}

#[test]
fn test_build_j2_matrix_all_ineligible() {
    let links = vec![edge("A", "B", "Op1", 1), edge("B", "C", "Op2", 2)];
    let mcast_ineligible = vec![0, 1];
    let max_shared = 2;

    let j2 = build_j2_matrix(&links, &mcast_ineligible, max_shared).unwrap();

    assert_eq!(j2.nnz(), 2);
    assert_eq!(j2.m, max_shared);
    assert_eq!(j2.n, links.len());
}

#[test]
fn test_compute_j1_minus_j2_subtraction() {
    let links = vec![edge("A", "B", "Op1", 1), edge("B", "C", "Op2", 2)];
    let n_private = 2;
    let mcast_ineligible = vec![0];
    let max_shared = 2;

    let j1 = build_j1_matrix(&links, n_private, max_shared).unwrap();
    let j2 = build_j2_matrix(&links, &mcast_ineligible, max_shared).unwrap();
    let result = compute_j1_minus_j2(&j1, &j2).unwrap();

    assert_eq!(result.m, max_shared);
    assert_eq!(result.n, links.len());
    // Only the second edge is left.
    assert_eq!(result.colptr, vec![0, 0, 1]);
    assert_eq!(result.rowval, vec![1]);
    assert_eq!(result.nzval, vec![1]);
}

#[test]
fn test_compute_j1_minus_j2_error_propagation() {
    let links = vec![edge("A", "B", "Op1", 3)];
    let n_private = 1;
    let max_shared = 2;

    let j1_result = build_j1_matrix(&links, n_private, max_shared);

    assert!(j1_result.is_ok());
    let j1 = j1_result.unwrap();
    assert_eq!(j1.nnz(), 0);
}

#[test]
fn test_concatenate_horizontal_mismatched_rows() {
    let matrix1 = dense(&[&[1.0, 2.0], &[3.0, 4.0]]);
    let matrix2 = dense(&[&[5.0], &[6.0], &[7.0]]);

    let result = hstack_matrices(&[&matrix1, &matrix2]);

    assert!(result.is_err());
    match result.unwrap_err() {
        ShapleyError::MatrixConstructionError(msg) => {
            assert!(msg.contains("same number of rows"));
        }
        _ => panic!("Expected MatrixConstructionError"),
    }
}

#[test]
fn stacking_keeps_the_columns() {
    let a = dense(&[&[1.0, 0.0], &[0.0, 2.0]]);
    let b = dense(&[&[0.0], &[3.0]]);
    let ab = hstack_matrices(&[&a, &b]).unwrap();
    assert_eq!((ab.m, ab.n), (2, 3));
    assert_eq!(ab.colptr, vec![0, 1, 2, 3]);
    assert_eq!(ab.rowval, vec![0, 1, 1]);
    let nothing: Vec<&CscMatrix<Real>> = vec![];
    match hstack_matrices(&nothing) {
        Err(e) => {
            assert_eq!(e.message(), "Matrix construction error: Cannot stack empty matrix list")
        }
        Ok(_) => panic!("nothing to stack"),
    }
}

#[test]
fn matrices_of_different_shape_are_not_subtracted() {
    let links = vec![edge("A", "B", "Op1", 1)];
    let a = build_j1_matrix(&links, 1, 1).unwrap();
    let b = build_j1_matrix(&links, 1, 2).unwrap();
    match compute_j1_minus_j2(&a, &b) {
        Err(ShapleyError::MatrixConstructionError(msg)) => {
            assert_eq!(msg, "J1 and J2 dimensions must match")
        }
        other => panic!("expected a mismatch, got {other:?}"),
    }
}

#[test]
fn columns_beyond_the_matrix_are_refused() {
    let a = dense(&[&[1.0, 0.0], &[0.0, 2.0]]);
    let picked = extract_mcast_eligible_columns(&a, &[1, 1, 0]).unwrap();
    assert_eq!(picked.colptr, vec![0, 1, 2, 3]);
    assert_eq!(picked.rowval, vec![1, 1, 0]);
    match extract_mcast_eligible_columns(&a, &[0, 12]) {
        Err(ShapleyError::MatrixConstructionError(msg)) => {
            assert_eq!(msg, "Column index 12 out of bounds")
        }
        other => panic!("expected a missing column, got {other:?}"),
    }
}

#[test]
fn triplets_are_placed_by_column_and_row() {
    let mut triplets = vec![(2usize, 1usize, 5i32), (0, 0, 1), (1, 1, 7), (0, 1, 3)];
    let a = from_triplets(&mut triplets, 3, 3).unwrap();
    assert_eq!(a.colptr, vec![0, 1, 4, 4]);
    assert_eq!(a.rowval, vec![0, 0, 1, 2]);
    assert_eq!(a.nzval, vec![1, 3, 7, 5]);
    assert_eq!(triplets, vec![(0, 0, 1), (0, 1, 3), (1, 1, 7), (2, 1, 5)]);
}
