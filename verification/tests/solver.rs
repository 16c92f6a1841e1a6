use network_shapley::error::ShapleyError;
use network_shapley::lp_builder::{LpBuilderInput, LpBuilderOutput};
use network_shapley::quantity::Real;
use network_shapley::solver::{
    after_cold, after_warm, coalition_program, coalition_value, read_status, rows_from_csc,
    AfterWarm, CoalitionBuffers,
    CoalitionResult, ColumnGate, ModelStatus, PrecomputedRows, SolveStatus,
};
use network_shapley::sparse::CscMatrix;
use network_shapley::types::{ConsolidatedDemand, ConsolidatedLink};

fn exact(x: f64) -> Real {
    Real { bits: x.to_bits() }
}

fn simple_links() -> Vec<ConsolidatedLink> {
    vec![ConsolidatedLink {
        device1: "A".to_string(),
        device2: "B".to_string(),
        latency: exact(1.0),
        bandwidth: exact(10.0),
        operator1: "Op1".to_string(),
        operator2: "Op1".to_string(),
        shared: 1,
        link_type: 0,
    }]
}

fn simple_demands() -> Vec<ConsolidatedDemand> {
    vec![ConsolidatedDemand {
        start: "A".to_string(),
        end: "B".to_string(),
        receivers: 1,
        traffic: exact(5.0),
        priority: exact(1.0),
        kind: 1,
        multicast: false,
        original: 1,
    }]
}

fn simple_program() -> LpBuilderOutput {
    let (links, demands) = (simple_links(), simple_demands());
    LpBuilderInput::new(&links, &demands).build().expect("LP builder should succeed")
}

#[test]
fn test_rows_from_csc() {
    // 2x3 matrix: [[1, 0, 2], [0, 3, 0]]
    let matrix = CscMatrix::new(
        2,
        3,
        vec![0, 1, 2, 3],
        vec![0, 1, 0],
        vec![exact(1.0), exact(3.0), exact(2.0)],
    );
    let rows = rows_from_csc(&matrix);
    assert_eq!(rows.len(), 2);
    assert_eq!(rows[0], vec![(0, exact(1.0)), (2, exact(2.0))]);
    assert_eq!(rows[1], vec![(1, exact(3.0))]);
}

#[test]
fn test_rows_from_csc_empty() {
    let matrix: CscMatrix<Real> = CscMatrix::new(3, 2, vec![0, 0, 0], vec![], vec![]);
    let rows = rows_from_csc(&matrix);
    assert_eq!(rows.len(), 3);
    assert!(rows[0].is_empty());
    assert!(rows[1].is_empty());
    assert!(rows[2].is_empty());
}

#[test]
fn test_precomputed_rows() {
    let primitives = simple_program();
    let precomputed = PrecomputedRows::new(&primitives);

    assert_eq!(precomputed.eq_rows.len(), primitives.a_eq.m);
    assert_eq!(precomputed.ub_rows.len(), primitives.a_ub.m);
}

#[test]
fn test_coalition_buffers_new_and_reset() {
    let mut buf = CoalitionBuffers::new(10);

    assert_eq!(buf.col_remap.len(), 10);
    assert!(buf.col_remap.iter().all(|&v| v == usize::MAX));
    assert!(buf.keep_cols.is_empty());

    buf.col_remap[0] = 0;
    buf.col_remap[5] = 1;
    buf.keep_cols.push(1);
    buf.keep_cols.push(2);
    buf.keep_rows.push(0);

    buf.reset();
    assert!(buf.col_remap.iter().all(|&v| v == usize::MAX));
    assert!(buf.keep_cols.is_empty());
    assert!(buf.keep_rows.is_empty());

    assert!(buf.keep_cols.capacity() >= 10);
}

#[test]
fn test_solve_coalition_empty_columns() {
    let primitives = simple_program();
    let precomputed = PrecomputedRows::new(&primitives);
    let mut buffers = CoalitionBuffers::new(primitives.cost.len());

    let col_masks = vec![0u32; primitives.cost.len()];
    let row_masks = vec![0u32; primitives.b_ub.len()];

    let result = coalition_program(
        &precomputed,
        &mut buffers,
        0,
        &col_masks,
        &col_masks,
        &row_masks,
        &row_masks,
    );

    assert!(result.is_err());
    match result {
        Err(ShapleyError::MatrixConstructionError(msg)) => {
            assert_eq!(msg, "No columns selected for coalition")
        }
        other => panic!("expected no columns, got {other:?}"),
    }
}

#[test]
fn coalitions_keep_their_columns_and_rows() {
    let mut links = simple_links();
    for (operator, shared) in [("Op2", 2), ("Op3", 3)] {
        let mut more = simple_links();
        more[0].operator1 = operator.to_string();
        more[0].operator2 = "Op3".to_string();
        more[0].shared = shared;
        links.append(&mut more);
    }
    let demands = simple_demands();
    let primitives = LpBuilderInput::new(&links, &demands).build().unwrap();
    let precomputed = PrecomputedRows::new(&primitives);
    let mut buffers = CoalitionBuffers::new(0);
    let (near, far) = (vec![1u32, 2, 4], vec![1u32, 4, 4]);
    let program =
        coalition_program(&precomputed, &mut buffers, 0b101, &near, &far, &near, &far).unwrap();
    assert_eq!(program.cols, vec![0, 2]);
    assert_eq!(program.ub_places, vec![0, 2]);
    assert_eq!(program.eq_rows, vec![vec![(0, 1), (1, 1)], vec![(0, -1), (1, -1)]]);
    assert_eq!(program.ub_rows.len(), 2);
    assert_eq!(program.ub_rows[1][0].0, 1);
    assert_eq!(buffers.col_remap, vec![0, usize::MAX, 1]);
    let program =
        coalition_program(&precomputed, &mut buffers, 0b110, &near, &far, &near, &far).unwrap();
    assert_eq!(program.cols, vec![1, 2]);
    assert_eq!(buffers.col_remap, vec![usize::MAX, 0, 1]);
}

#[test]
fn switching_columns_names_those_that_change() {
    let mut gate = ColumnGate::all_open(3);
    let (near, far) = (vec![1u32, 2, 4], vec![1u32, 4, 4]);
    let (changes, open) = gate.switch_to(0b101, &near, &far);
    assert_eq!(changes, vec![(1, false)]);
    assert_eq!(open, 2);
    let (changes, open) = gate.switch_to(0b101, &near, &far);
    assert!(changes.is_empty());
    assert_eq!(open, 2);
    let (changes, open) = gate.switch_to(0b110, &near, &far);
    assert_eq!(changes, vec![(0, false), (1, true)]);
    assert_eq!(open, 2);
    let (_, open) = gate.switch_to(0, &near, &far);
    assert_eq!(open, 0);
    assert_eq!(gate.col_active, vec![false, false, false]);
}

#[test]
fn the_end_of_a_solver_is_read() {
    let solved = read_status(ModelStatus::Optimal, exact(2.5)).unwrap();
    assert_eq!(
        solved,
        CoalitionResult { status: SolveStatus::Solved, objective_value: exact(2.5) }
    );
    assert_eq!(coalition_value(solved), Some(exact(-2.5)));
    for status in [ModelStatus::Infeasible, ModelStatus::UnboundedOrInfeasible] {
        let none = read_status(status, exact(2.5)).unwrap();
        assert_eq!(none.status, SolveStatus::Infeasible);
        assert_eq!(none.objective_value, exact(0.0));
        assert_eq!(coalition_value(none), None);
    }
    match read_status(ModelStatus::ReachedTimeLimit, exact(0.0)) {
        Err(e) => {
            assert_eq!(e.message(), "LP solver error: HiGHS solver failed: ReachedTimeLimit")
        }
        Ok(_) => panic!("no optimum was reached"),
    }
    match read_status(ModelStatus::Other("Unknown".to_string()), exact(0.0)) {
        Err(e) => assert_eq!(e.message(), "LP solver error: HiGHS solver failed: Unknown"),
        Ok(_) => panic!("no optimum was reached"),
    }
}

#[test]
fn a_time_limit_fails_loudly() {
    assert_eq!(after_warm(ModelStatus::ReachedTimeLimit, exact(1.0)), AfterWarm::Rescue);
    assert_eq!(
        after_warm(ModelStatus::Optimal, exact(1.0)),
        AfterWarm::Value(Some(exact(-1.0)))
    );
    assert_eq!(after_warm(ModelStatus::Infeasible, exact(1.0)), AfterWarm::Value(None));
    assert_eq!(
        after_warm(ModelStatus::Other("Unknown".to_string()), exact(1.0)),
        AfterWarm::Value(None)
    );
    assert_eq!(after_cold(ModelStatus::Optimal, exact(1.0), "60s").unwrap(), Some(exact(-1.0)));
    assert_eq!(after_cold(ModelStatus::UnboundedOrInfeasible, exact(1.0), "60s").unwrap(), None);
    let err = after_cold(ModelStatus::ReachedTimeLimit, exact(1.0), "0.000001 seconds")
        .expect_err("a time-limited solve must error, not return values");
    assert!(
        matches!(&err, ShapleyError::LpSolver(msg) if msg.contains("time limit")),
        "expected a loud time-limit LpSolver error, got {err:?}"
    );
    assert!(err.message().ends_with("of 0.000001 seconds"));
}
