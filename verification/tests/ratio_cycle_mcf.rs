use flow::feasibility::FeasibilityExecution;
use flow::ids::{EdgeId, NodeId};
use flow::model::{FlowNetwork, FlowNode, UnresolvedFlowEdge};
use flow::ratio_cycle_mcf::{
    enumerate_feasible, exact_feasible_face, trace_stage_catalog_id, validate_admission,
    MinimumRatioCycleMcfError, MinimumRatioCycleMcfMetrics, MinimumRatioCycleMcfStage,
};

fn network(nodes: usize, edges: &[(&str, usize, usize, u64, u64, i64)]) -> FlowNetwork {
    FlowNetwork::new(
        (0..nodes)
            .map(|index| FlowNode::new(NodeId::parse(&format!("v{index}")).expect("node"), 0))
            .collect(),
        edges
            .iter()
            .map(|&(id, from, to, lower, capacity, cost)| UnresolvedFlowEdge {
                id: EdgeId::parse(id).expect("edge"),
                from: NodeId::parse(&format!("v{from}")).expect("from"),
                to: NodeId::parse(&format!("v{to}")).expect("to"),
                lower,
                capacity,
                cost,
            })
            .collect(),
    )
    .expect("valid network")
}

fn parallel_routes() -> FlowNetwork {
    network(3, &[("a", 0, 1, 0, 2, 1), ("b", 1, 2, 0, 2, 1), ("c", 0, 2, 0, 1, 3)])
}

#[test]
fn admission_rejects_out_of_band_inputs() {
    let graph = parallel_routes();
    assert_eq!(validate_admission(&graph, &[2, 0, -2]), Ok(()));
    assert_eq!(
        validate_admission(&graph, &[2, 0, -1]),
        Err(MinimumRatioCycleMcfError::InvalidDivergence)
    );
    assert_eq!(
        validate_admission(&graph, &[i128::MAX, 1, i128::MIN]),
        Err(MinimumRatioCycleMcfError::InvalidDivergence)
    );
    assert_eq!(
        validate_admission(&graph, &[0, 0]),
        Err(MinimumRatioCycleMcfError::AdmissionLimit)
    );
    let wide = network(2, &[("a", 0, 1, 0, 9, 0)]);
    assert_eq!(validate_admission(&wide, &[0, 0]), Err(MinimumRatioCycleMcfError::AdmissionLimit));
    let loud = network(2, &[("a", 0, 1, 0, 1, 33)]);
    assert_eq!(validate_admission(&loud, &[0, 0]), Err(MinimumRatioCycleMcfError::AdmissionLimit));
    let many = network(
        2,
        &[
            ("a", 0, 1, 0, 8, 0),
            ("b", 0, 1, 0, 8, 0),
            ("c", 0, 1, 0, 8, 0),
            ("d", 0, 1, 0, 8, 0),
            ("e", 0, 1, 0, 8, 0),
            ("f", 0, 1, 0, 8, 0),
        ],
    );
    assert_eq!(validate_admission(&many, &[1, -1]), Err(MinimumRatioCycleMcfError::AdmissionLimit));
}

#[test]
fn enumeration_lists_every_feasible_flow_in_lexicographic_order() {
    let graph = parallel_routes();
    let mut metrics = MinimumRatioCycleMcfMetrics::default();
    let mut feasibility = FeasibilityExecution::untracked();
    let feasible = enumerate_feasible(&graph, &[2, 0, -2], &mut metrics, &mut feasibility).expect("feasible");
    assert_eq!(feasible, vec![vec![1, 1, 1], vec![2, 2, 0]]);
    assert_eq!(metrics.enumerated_assignments, 18);
    assert_eq!(metrics.feasible_flows, 2);
}

#[test]
fn feasible_face_fixes_agreeing_coordinates_and_finds_the_optimum() {
    let graph = parallel_routes();
    let mut feasibility = FeasibilityExecution::counted();
    let face = exact_feasible_face(&graph, &[2, 0, -2], &mut feasibility).expect("face");
    assert_eq!(face.fixed, vec![false, false, false]);
    assert_eq!(face.optimum_cost, 4);
    assert_eq!(feasibility.prechecks, 0);
    let pinned = network(3, &[("a", 0, 1, 1, 1, 5), ("b", 1, 2, 0, 2, -2), ("c", 0, 2, 0, 1, 1)]);
    let face = exact_feasible_face(&pinned, &[2, 0, -2], &mut feasibility).expect("pinned face");
    assert_eq!(face.feasible, vec![vec![1, 1, 1]]);
    assert_eq!(face.fixed, vec![true, true, true]);
    assert_eq!(face.optimum_cost, 4);
}

#[test]
fn infeasible_divergence_is_explained_by_the_precheck() {
    let graph = parallel_routes();
    let mut feasibility = FeasibilityExecution::counted();
    let outcome = exact_feasible_face(&graph, &[5, 0, -5], &mut feasibility);
    assert!(matches!(outcome, Err(MinimumRatioCycleMcfError::Feasibility(_))));
    assert_eq!(feasibility.prechecks, 1);
}

#[test]
fn catalog_names_every_stage() {
    assert_eq!(
        trace_stage_catalog_id(MinimumRatioCycleMcfStage::EnumerateFeasibleSet),
        "minimum-ratio-cycle-mcf.enumerate-feasible-set"
    );
    assert_eq!(
        trace_stage_catalog_id(MinimumRatioCycleMcfStage::Complete),
        "minimum-ratio-cycle-mcf.complete-primitive"
    );
}

#[test]
fn singleton_face_fixes_every_coordinate() {
    let graph = network(2, &[("st", 0, 1, 0, 2, 1)]);
    let mut feasibility = FeasibilityExecution::untracked();
    let face = exact_feasible_face(&graph, &[2, -2], &mut feasibility).expect("singleton face");
    assert_eq!(face.feasible, vec![vec![2]]);
    assert_eq!(face.fixed, vec![true]);
    assert_eq!(face.optimum_cost, 2);
    assert_eq!(face.metrics.enumerated_assignments, 3);
    assert_eq!(face.metrics.feasible_flows, 1);
}
