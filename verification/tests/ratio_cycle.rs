use flow::ids::{EdgeId, NodeId};
use flow::model::{FlowNetwork, FlowNode, UnresolvedFlowEdge};
use flow::ratio_cycle::{
    check_minimum_ratio_cycle_trace, solve_minimum_ratio_cycle, trace_minimum_ratio_cycle,
    MinimumRatioCycleError, MinimumRatioCycleRational, MinimumRatioCycleStage,
    MINIMUM_RATIO_CYCLE_TRACE_VECTOR_BLOCK_MAX,
};

fn graph(edges: &[(&str, usize, usize, u64, i64)], nodes: usize) -> FlowNetwork {
    FlowNetwork::new(
        (0..nodes)
            .map(|index| FlowNode::new(NodeId::parse(&format!("v{index}")).expect("node identity"), 0))
            .collect(),
        edges
            .iter()
            .map(|&(id, from, to, length, gradient)| UnresolvedFlowEdge {
                id: EdgeId::parse(id).expect("edge identity"),
                from: NodeId::parse(&format!("v{from}")).expect("from identity"),
                to: NodeId::parse(&format!("v{to}")).expect("to identity"),
                lower: 0,
                capacity: length,
                cost: gradient,
            })
            .collect(),
    )
    .expect("valid test graph")
}

#[test]
fn selects_exact_best_ratio_and_signs() {
    let graph = graph(
        &[
            ("ab", 0, 1, 2, 4),
            ("bc", 1, 2, 1, -2),
            ("ca", 2, 0, 1, -1),
            ("bd", 1, 3, 1, 8),
            ("dc", 3, 2, 1, 0),
        ],
        4,
    );
    let result = solve_minimum_ratio_cycle(&graph).expect("solve");
    let ratio = result.ratio.expect("cycle");
    assert_eq!(
        ratio,
        MinimumRatioCycleRational {
            numerator: -10,
            denominator: 3
        }
    );
    assert_eq!(result.cycle.len(), 3);
    assert_eq!(result.final_snapshot.maximum_absolute_balance, 0);
}

#[test]
fn trace_contains_search_best_and_both_certificates() {
    let graph = graph(&[("ab", 0, 1, 1, 3), ("bc", 1, 2, 2, 1), ("ca", 2, 0, 1, -8)], 3);
    let trace = trace_minimum_ratio_cycle(&graph).expect("trace");
    assert!(trace
        .events
        .iter()
        .any(|event| event.after.stage == MinimumRatioCycleStage::EvaluateCycle));
    assert!(trace
        .events
        .iter()
        .any(|event| event.after.stage == MinimumRatioCycleStage::UpdateBest));
    assert_eq!(
        trace.result.ratio,
        Some(MinimumRatioCycleRational {
            numerator: -1,
            denominator: 1
        })
    );
    check_minimum_ratio_cycle_trace(&graph, &trace).expect("replay");
    assert_eq!(trace.result, solve_minimum_ratio_cycle(&graph).expect("fast"));
    let vector_checkpoints = trace
        .events
        .iter()
        .filter(|event| event.after.stage == MinimumRatioCycleStage::InspectVector)
        .map(|event| event.after.metrics.enumerated_vectors)
        .collect::<Vec<_>>();
    assert_eq!(vector_checkpoints.first(), Some(&1));
    assert_eq!(vector_checkpoints.last(), Some(&trace.result.metrics.enumerated_vectors));
    assert!(vector_checkpoints
        .windows(2)
        .all(|pair| pair[1].saturating_sub(pair[0]) <= MINIMUM_RATIO_CYCLE_TRACE_VECTOR_BLOCK_MAX));
    let verification = trace
        .events
        .iter()
        .position(|event| event.after.stage == MinimumRatioCycleStage::VerifyCycleSpace)
        .expect("cycle-space verification");
    assert_eq!(
        trace.events[verification - 1].after.metrics.enumerated_vectors,
        trace.events[verification].after.metrics.enumerated_vectors,
    );
}

#[test]
fn reports_acyclic_instance_without_inventing_ratio() {
    let graph = graph(&[("ab", 0, 1, 1, -5), ("bc", 1, 2, 2, 9)], 3);
    let result = solve_minimum_ratio_cycle(&graph).expect("forest is valid");
    assert!(result.cycle.is_empty());
    assert_eq!(result.ratio, None);
    assert_eq!(result.metrics.fundamental_cycles, 0);
}

#[test]
fn supports_parallel_edge_two_cycle() {
    let graph = graph(&[("a", 0, 1, 2, 7), ("b", 0, 1, 3, -3)], 2);
    let result = solve_minimum_ratio_cycle(&graph).expect("parallel cycle");
    assert_eq!(
        result.ratio,
        Some(MinimumRatioCycleRational {
            numerator: -2,
            denominator: 1
        })
    );
    assert_eq!(result.cycle.len(), 2);
}

#[test]
fn rejects_bad_source_mapping_and_limits() {
    let base = graph(&[("a", 0, 1, 1, 0)], 2);
    let bad = FlowNetwork::new(
        base.nodes().to_vec(),
        vec![UnresolvedFlowEdge {
            id: EdgeId::parse("loop").expect("edge"),
            from: NodeId::parse("v0").expect("from"),
            to: NodeId::parse("v0").expect("to"),
            lower: 0,
            capacity: 1,
            cost: 0,
        }],
    )
    .expect("model permits explicit loop");
    assert_eq!(
        solve_minimum_ratio_cycle(&bad),
        Err(MinimumRatioCycleError::GraphRequirement)
    );

    let names = (0..12).map(|index| format!("e{index}")).collect::<Vec<_>>();
    let oversized = graph(
        &names
            .iter()
            .enumerate()
            .map(|(index, name)| (name.as_str(), index % 2, (index + 1) % 2, 1, 0))
            .collect::<Vec<_>>(),
        2,
    );
    assert_eq!(
        solve_minimum_ratio_cycle(&oversized),
        Err(MinimumRatioCycleError::AdmissionLimit)
    );
}

#[test]
fn detects_tampered_trace() {
    let graph = graph(&[("ab", 0, 1, 1, 2), ("bc", 1, 2, 1, 3), ("ca", 2, 0, 1, -9)], 3);
    let mut trace = trace_minimum_ratio_cycle(&graph).expect("trace");
    trace.events[2].after.maximum_absolute_balance = u32::MAX;
    assert_eq!(
        check_minimum_ratio_cycle_trace(&graph, &trace),
        Err(MinimumRatioCycleError::TraceVerification)
    );
}

#[test]
fn triangle_ratio_is_in_lowest_terms_and_oriented_negative() {
    let graph = graph(&[("ab", 0, 1, 2, 2), ("bc", 1, 2, 2, 2), ("ca", 2, 0, 2, 2)], 3);
    let result = solve_minimum_ratio_cycle(&graph).expect("triangle");
    assert_eq!(
        result.ratio,
        Some(MinimumRatioCycleRational {
            numerator: -1,
            denominator: 1
        })
    );
    assert!(result.cycle.iter().all(|arc| arc.sign == -1));
}

#[test]
fn rejects_supplies_lower_bounds_and_oversized_lengths() {
    let supplied = FlowNetwork::new(
        vec![
            FlowNode::new(NodeId::parse("v0").expect("node"), 1),
            FlowNode::new(NodeId::parse("v1").expect("node"), -1),
        ],
        vec![UnresolvedFlowEdge {
            id: EdgeId::parse("a").expect("edge"),
            from: NodeId::parse("v0").expect("from"),
            to: NodeId::parse("v1").expect("to"),
            lower: 0,
            capacity: 1,
            cost: 0,
        }],
    )
    .expect("valid graph");
    assert_eq!(
        solve_minimum_ratio_cycle(&supplied),
        Err(MinimumRatioCycleError::GraphRequirement)
    );
    let long = graph(&[("a", 0, 1, 1_000_001, 0)], 2);
    assert_eq!(
        solve_minimum_ratio_cycle(&long),
        Err(MinimumRatioCycleError::GraphRequirement)
    );
    let single = graph(&[("a", 0, 0, 1, 0)], 1);
    assert_eq!(
        solve_minimum_ratio_cycle(&single),
        Err(MinimumRatioCycleError::AdmissionLimit)
    );
}

#[test]
fn reported_ratio_bounds_every_simple_cycle_and_is_attained() {
    let graph = graph(
        &[
            ("ab", 0, 1, 2, 4),
            ("bc", 1, 2, 1, -2),
            ("ca", 2, 0, 1, -1),
            ("bd", 1, 3, 1, 8),
            ("dc", 3, 2, 1, 0),
        ],
        4,
    );
    let result = solve_minimum_ratio_cycle(&graph).expect("solve");
    let ratio = result.ratio.expect("cycle");
    // (absolute gradient, length) of the three simple cycles: a-b-c, a-b-d-c, b-d-c.
    for (gradient, length) in [(1i128, 4u128), (11, 5), (10, 3)] {
        assert!(ratio.numerator * length as i128 <= -gradient * ratio.denominator as i128);
    }
    let mut used: Vec<&str> = result.cycle.iter().map(|arc| arc.edge.as_str()).collect();
    used.sort();
    assert_eq!(used, vec!["bc", "bd", "dc"]);
}
