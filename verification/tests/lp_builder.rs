use network_shapley::lp_builder::{
    build_column_operators1, build_column_operators2, build_single_commodity_matrix,
    LpBuilderInput, Share, Term, Toll,
};
use network_shapley::quantity::Real;
use network_shapley::types::{ConsolidatedDemand, ConsolidatedLink};
use std::collections::HashMap;

fn exact(x: f64) -> Real {
    Real { bits: x.to_bits() }
}

fn edge(a: &str, b: &str, operator: &str, shared: u32, link_type: u32) -> ConsolidatedLink {
    ConsolidatedLink {
        device1: a.to_string(),
        device2: b.to_string(),
        latency: exact(1.0),
        bandwidth: exact(10.0),
        operator1: operator.to_string(),
        operator2: operator.to_string(),
        shared,
        link_type,
    }
}

fn flow(start: &str, end: &str, receivers: u32, kind: u32, multicast: bool, original: u32) -> ConsolidatedDemand {
    ConsolidatedDemand {
        start: start.to_string(),
        end: end.to_string(),
        receivers,
        traffic: exact(5.0),
        priority: exact(1.0),
        kind,
        multicast,
        original,
    }
}

fn names(list: &[&str]) -> Vec<String> {
    list.iter().map(|s| s.to_string()).collect()
}

#[test]
fn test_build_single_commodity_matrix() {
    let links = vec![edge("A", "B", "Op1", 1, 0), edge("B", "C", "Op1", 1, 0)];
    let nodes = names(&["A", "B", "C"]);

    let matrix = build_single_commodity_matrix(&links, &nodes)
        .expect("Matrix construction should succeed in tests");

    assert_eq!(matrix.m, 3);
    assert_eq!(matrix.n, 2);
    assert_eq!(matrix.nnz(), 4);
    assert_eq!(matrix.rowval, vec![0, 1, 1, 2]);
    assert_eq!(matrix.nzval, vec![1, -1, 1, -1]);
}

#[test]
fn test_build_multicommodity_flow_matrix() {
    let nodes = names(&["A", "B", "C"]);
    let unique_types = vec![1, 2];

    let mut matrices = Vec::new();
    for &demand_type in &unique_types {
        let type_links: Vec<ConsolidatedLink> =
            vec![edge("A", "B", "Op1", 1, 0), edge("B", "C", "Op1", 1, 0)]
                .into_iter()
                .filter(|l| l.link_type == 0 || l.link_type == demand_type)
                .collect();

        if let Ok(matrix) = build_single_commodity_matrix(&type_links, &nodes) {
            matrices.push(matrix);
        }
    }

    assert_eq!(matrices.len(), 2);
}

#[test]
fn test_build_multicast_demand_matrix() {
    let mut demands = [flow("A", "B", 1, 1, true, 1), flow("A", "C", 1, 1, true, 1)];
    demands[1].traffic = exact(3.0);

    let mut node_idx = HashMap::new();
    node_idx.insert("A", 0);
    node_idx.insert("B", 1);
    node_idx.insert("C", 2);

    let multicast_demands: Vec<&ConsolidatedDemand> =
        demands.iter().filter(|d| d.multicast).collect();

    assert_eq!(multicast_demands.len(), 2);

    let mut b_vector = [0.0; 3];
    for demand in &multicast_demands {
        let traffic = f64::from_bits(demand.traffic.bits);
        if let Some(&src_idx) = node_idx.get(demand.start.as_str()) {
            let at: usize = src_idx;
            b_vector[at] -= traffic;
        }
        if let Some(&dst_idx) = node_idx.get(demand.end.as_str()) {
            let at: usize = dst_idx;
            b_vector[at] += traffic;
        }
    }

    assert_eq!(b_vector[0], -8.0);
    assert_eq!(b_vector[1], 5.0);
    assert_eq!(b_vector[2], 3.0);
}

#[test]
fn test_sparse_matrix_edge_cases() {
    let links = vec![edge("A", "B", "Op1", 1, 0)];
    let nodes = names(&["A", "B"]);

    let matrix =
        build_single_commodity_matrix(&links, &nodes).expect("Should handle minimal input");

    assert_eq!(matrix.m, 2);
    assert_eq!(matrix.n, 1);
    assert_eq!(matrix.nnz(), 2);
}

#[test]
fn test_empty_links() {
    let links: Vec<ConsolidatedLink> = vec![];
    let nodes: Vec<String> = vec![];

    let result = build_single_commodity_matrix(&links, &nodes);
    assert!(result.is_ok());
    let matrix = result.unwrap();
    assert_eq!(matrix.nnz(), 0);
    assert_eq!(matrix.m, 0);
    assert_eq!(matrix.n, 0);
}

#[test]
fn an_unknown_node_is_refused() {
    let links = vec![edge("A", "B", "Op1", 1, 0), edge("A", "Q", "Op1", 1, 0)];
    match build_single_commodity_matrix(&links, &names(&["A", "B"])) {
        Err(e) => {
            assert_eq!(e.message(), "Matrix construction error: Node Q not found in index")
        }
        Ok(_) => panic!("Q is no node"),
    }
}

#[test]
fn operators_of_columns_follow_the_kept_ones() {
    let mut links = vec![edge("A", "B", "Op1", 1, 0), edge("B", "C", "Op2", 2, 0)];
    links[0].operator2 = "Op3".to_string();
    let near = build_column_operators1(&links, &[1, 2], &[1], &[1], &[0, 3, 4, 9], 1);
    assert_eq!(near, names(&["Op1", "Op2", "Op2"]));
    let far = build_column_operators2(&links, &[1, 2], &[1], &[1], &[2, 3, 4], 1);
    assert_eq!(far, names(&["Op3", "Op2", "Op2"]));
}

#[test]
fn a_unicast_program() {
    // Two commodities; the last edge is open to the second alone.
    let links = vec![
        edge("AAA1", "BBB1", "Op1", 1, 0),
        edge("BBB1", "AAA1", "Op1", 2, 0),
        edge("AAA1", "BBB", "Op2", 3, 7),
        edge("AAA00", "BBB00", "Public", 0, 0),
    ];
    let flows = vec![flow("AAA1", "BBB1", 2, 3, false, 3), flow("AAA1", "BBB", 1, 7, false, 7)];
    let input = LpBuilderInput::new(&links, &flows);
    assert!(input.is_ready());
    let out = input.build().unwrap();
    assert_eq!(out.commodities, vec![3, 7]);
    // Nodes: AAA00 AAA1 BBB BBB00 BBB1.
    assert_eq!((out.a_eq.m, out.a_eq.n), (10, 7));
    assert_eq!(out.a_eq.rowval, vec![1, 4, 1, 4, 0, 3, 6, 9, 6, 9, 6, 7, 5, 8]);
    assert_eq!(out.a_eq.nzval, vec![1, -1, -1, 1, 1, -1, 1, -1, -1, 1, 1, -1, 1, -1]);
    assert_eq!((out.a_ub.m, out.a_ub.n), (3, 7));
    assert_eq!(out.a_ub.colptr, vec![0, 1, 2, 2, 3, 4, 5, 5]);
    assert_eq!(out.a_ub.rowval, vec![0, 1, 0, 1, 2]);
    assert!(out.a_ub.nzval.iter().all(|s| *s == Share { num: 1, den: 1 }));
    assert_eq!(out.b_ub, vec![exact(10.0), exact(10.0), exact(10.0)]);
    assert_eq!(out.row_op1, names(&["Op1", "Op1", "Op2"]));
    assert_eq!(
        out.col_op1,
        names(&["Op1", "Op1", "Public", "Op1", "Op1", "Op2", "Public"])
    );
    assert_eq!(out.b_eq[1], vec![Term { flow: 0, starts: true }]);
    assert_eq!(out.b_eq[4], vec![Term { flow: 0, starts: false }]);
    assert_eq!(out.b_eq[6], vec![Term { flow: 1, starts: true }]);
    assert_eq!(out.b_eq[7], vec![Term { flow: 1, starts: false }]);
    assert_eq!(out.cost[0], Some(Toll { link: 0, commodity: 0 }));
    assert_eq!(out.cost[5], Some(Toll { link: 2, commodity: 1 }));
}

#[test]
fn a_multicast_program() {
    // The first edge leads to a device and is a trunk, the second to a city.
    let links = vec![edge("AAA1", "BBB1", "Op1", 1, 0), edge("BBB1", "BBB", "Op2", 2, 0)];
    let flows = vec![flow("AAA1", "BBB", 4, 1, true, 1), flow("AAA1", "BBB1", 2, 2, true, 1)];
    let out = LpBuilderInput::new(&links, &flows).build().unwrap();
    // Two edges for each of two commodities, and the trunk of one multicast group.
    assert_eq!(out.a_eq.n, 5);
    assert_eq!(out.a_ub.m, 4);
    let columns: Vec<Vec<(usize, Share)>> = (0..5)
        .map(|j| {
            (out.a_ub.colptr[j]..out.a_ub.colptr[j + 1])
                .map(|k| (out.a_ub.rowval[k], out.a_ub.nzval[k]))
                .collect()
        })
        .collect();
    let whole = |num: i32, den: u32| Share { num, den };
    assert_eq!(columns[0], vec![(2, whole(1, 4))]);
    assert_eq!(columns[1], vec![(1, whole(1, 1))]);
    assert_eq!(columns[2], vec![(3, whole(1, 2))]);
    assert_eq!(columns[3], vec![(1, whole(1, 1))]);
    assert_eq!(columns[4], vec![(0, whole(1, 1)), (2, whole(-1, 1)), (3, whole(-1, 1))]);
    assert_eq!(out.b_ub, vec![exact(10.0), exact(10.0), exact(0.0), exact(0.0)]);
    assert_eq!(out.row_op1, names(&["Op1", "Op2", "Op1", "Op1"]));
    assert_eq!(out.cost[4], None);
    assert_eq!(out.col_op2[4], "Op1");
}

#[test]
fn columns_of_the_equalities_add_up_to_nothing() {
    let links = vec![edge("AAA1", "BBB1", "Op1", 1, 0), edge("BBB1", "CCC1", "Op2", 2, 0)];
    let flows = vec![flow("AAA1", "CCC1", 1, 1, false, 1)];
    let out = LpBuilderInput::new(&links, &flows).build().unwrap();
    for j in 0..out.a_eq.n {
        let sum: i32 =
            (out.a_eq.colptr[j]..out.a_eq.colptr[j + 1]).map(|k| out.a_eq.nzval[k]).sum();
        assert_eq!(sum, 0);
    }
    assert_eq!(out.b_eq.len(), out.a_eq.m);
    assert_eq!(out.cost.len(), out.a_eq.n);
    assert_eq!(out.b_ub.len(), out.a_ub.m);
}

#[test]
fn a_network_without_private_edges_has_no_limits() {
    let links = vec![
        edge("A00", "B00", "Public", 0, 0),
        edge("B00", "A00", "Public", 2, 0),
        edge("A", "A00", "Public", 0, 1),
        edge("B00", "B", "Public", 0, 1),
    ];
    let flows = vec![flow("A", "B", 1, 1, false, 1), flow("A", "B", 2, 2, true, 2)];
    let input = LpBuilderInput::new(&links, &flows);
    assert!(input.is_ready());
    let program = input.build().expect("a program");
    assert_eq!(program.a_ub.m, 0);
    assert_eq!(program.a_ub.n, program.a_eq.n);
    assert_eq!(program.a_ub.colptr, vec![0; program.a_ub.n + 1]);
    assert!(program.a_ub.rowval.is_empty() && program.a_ub.nzval.is_empty());
    assert!(program.b_ub.is_empty());
    assert!(program.row_op1.is_empty() && program.row_op2.is_empty());
    // Four edges for the first kind; two are open to the second.
    assert_eq!(program.a_eq.n, 6);
}

#[test]
fn names_of_any_characters_are_split() {
    let links = vec![edge("AAA1", "\u{e9}\u{e9}\u{e9}1", "Op1", 1, 0), edge("AAA1", "\u{e9}B", "Op1", 2, 0)];
    let flows = vec![flow("AAA1", "AAA1", 2, 1, true, 1)];
    let program = LpBuilderInput::new(&links, &flows).build().expect("a program");
    // One edge leads to a device, and has a column for what it carries in multicast.
    assert_eq!(program.a_eq.n, 3);
}
