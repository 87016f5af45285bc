use flow::certificate::check_max_flow;
use flow::ids::{EdgeId, NodeId};
use flow::interior_point::{
    build_bipartite_reduction, build_working_skeleton, certify_target_flow,
    check_interior_point_max_flow_trace, complete_b_matching, demand_offsets, enumerate_min_cut,
    extract_integral_flow, interior_point_catalog_id, ready_snapshot, support_perfect_matching,
    terminal_normalization, valid_interior_point_event, validate_interior_point_graph,
    BipartiteEdge, BipartiteNode, BipartiteReduction, BipartiteRole, InteriorPointMaxFlowError,
    InteriorPointMaxFlowMetrics, InteriorPointMaxFlowResult, InteriorPointMaxFlowStage,
    InteriorPointMaxFlowTraceEvent, InteriorPointMaxFlowTraceResult, InteriorPointScalar,
    SupportEdge,
};
use flow::model::{FlowNetwork, FlowNode, NodeIndex, UnresolvedFlowEdge};

fn unit_graph(edges: &[(&str, &str, &str)]) -> (FlowNetwork, NodeIndex, NodeIndex) {
    capacity_graph(&edges.iter().map(|&(id, from, to)| (id, from, to, 1)).collect::<Vec<_>>())
}

fn capacity_graph(edges: &[(&str, &str, &str, u64)]) -> (FlowNetwork, NodeIndex, NodeIndex) {
    let nodes = ["s", "a", "b", "t"]
        .into_iter()
        .map(|id| FlowNode::new(NodeId::parse(id).expect("node"), 0))
        .collect::<Vec<_>>();
    let edges = edges
        .iter()
        .map(|&(id, from, to, capacity)| UnresolvedFlowEdge {
            id: EdgeId::parse(id).expect("edge"),
            from: NodeId::parse(from).expect("from"),
            to: NodeId::parse(to).expect("to"),
            lower: 0,
            capacity,
            cost: 0,
        })
        .collect();
    let graph = FlowNetwork::new(nodes, edges).expect("graph");
    let source = graph.node_index(&NodeId::parse("s").expect("s")).expect("source");
    let sink = graph.node_index(&NodeId::parse("t").expect("t")).expect("sink");
    (graph, source, sink)
}

fn exact_min_cut(graph: &FlowNetwork, source: NodeIndex, sink: NodeIndex) -> u64 {
    (0_u64..(1_u64 << graph.nodes().len()))
        .filter(|side| {
            side & (1_u64 << source.as_usize()) != 0 && side & (1_u64 << sink.as_usize()) == 0
        })
        .map(|side| {
            graph
                .edges()
                .iter()
                .filter(|edge| {
                    side & (1_u64 << edge.from().as_usize()) != 0
                        && side & (1_u64 << edge.to().as_usize()) == 0
                })
                .map(|edge| edge.capacity())
                .sum::<u64>()
        })
        .min()
        .expect("exact cut")
}

#[test]
fn rejects_non_unit_and_self_loop_inputs() {
    let (graph, source, sink) = unit_graph(&[("e0", "s", "a"), ("e1", "a", "t")]);
    assert_eq!(validate_interior_point_graph(&graph, source, sink), Ok(()));
    let (bad, source, sink) = capacity_graph(&[("bad", "s", "a", 2)]);
    assert_eq!(
        validate_interior_point_graph(&bad, source, sink),
        Err(InteriorPointMaxFlowError::GraphRequirement)
    );
    let (self_loop, source, sink) = unit_graph(&[("loop", "a", "a")]);
    assert_eq!(
        validate_interior_point_graph(&self_loop, source, sink),
        Err(InteriorPointMaxFlowError::GraphRequirement)
    );
    assert_eq!(
        validate_interior_point_graph(&graph, source, source),
        Err(InteriorPointMaxFlowError::InvalidTerminals)
    );
}

#[test]
fn validation_rejects_oversized_inputs() {
    let nodes = (0..9)
        .map(|index| FlowNode::new(NodeId::parse(&format!("n{index}")).expect("node"), 0))
        .collect::<Vec<_>>();
    let graph = FlowNetwork::new(nodes, Vec::new()).expect("graph");
    let source = NodeIndex::try_from_usize(0).expect("source");
    let sink = NodeIndex::try_from_usize(1).expect("sink");
    assert_eq!(
        validate_interior_point_graph(&graph, source, sink),
        Err(InteriorPointMaxFlowError::AdmissionLimit)
    );
}

#[test]
fn matches_exact_cut_on_every_six_edge_subset() {
    let candidates = [
        ("sa", "s", "a"),
        ("at", "a", "t"),
        ("sb", "s", "b"),
        ("bt", "b", "t"),
        ("ab", "a", "b"),
        ("ba", "b", "a"),
    ];
    for mask in 0_u64..(1_u64 << candidates.len()) {
        let edges = candidates
            .iter()
            .enumerate()
            .filter(|(index, _)| mask & (1_u64 << index) != 0)
            .map(|(_, edge)| *edge)
            .collect::<Vec<_>>();
        let (graph, source, sink) = unit_graph(&edges);
        let expected = exact_min_cut(&graph, source, sink);
        let (value, side, count) = enumerate_min_cut(&graph, source, sink);
        assert_eq!(value, expected, "subset {mask:06b}");
        assert_eq!(count, 4, "subset {mask:06b}");
        assert!(side[source.as_usize()] && !side[sink.as_usize()]);
        let reduction = build_bipartite_reduction(&graph, source, sink, value).expect("reduction");
        let (matching, _) =
            complete_b_matching(&reduction, &Vec::new(), &Vec::new(), 0, 0).expect("perfect matching");
        let flows = extract_integral_flow(&graph, &reduction, &matching).expect("flows");
        let certificate = certify_target_flow(&graph, source, sink, value, &flows).expect("certificate");
        assert_eq!(certificate.value, i128::from(expected), "subset {mask:06b}");
        assert_eq!(
            check_max_flow(&graph, source, sink, &flows).expect("certificate"),
            certificate,
            "subset {mask:06b}"
        );
    }
}

#[test]
fn reduction_lays_out_edge_and_node_gadgets() {
    let (graph, source, sink) = unit_graph(&[
        ("e0", "s", "a"),
        ("e1", "a", "t"),
        ("e2", "s", "b"),
        ("e3", "b", "t"),
    ]);
    let (target, _, _) = enumerate_min_cut(&graph, source, sink);
    assert_eq!(target, 2);
    let reduction = build_bipartite_reduction(&graph, source, sink, target).expect("reduction");
    // Four relevant edges and two non-terminal nodes: 4 + 2 + 1 vertices per side.
    assert_eq!(reduction.p.len(), 7);
    assert_eq!(reduction.q.len(), 7);
    assert_eq!(reduction.edges.len(), 3 * 4 + 2);
    assert_eq!(reduction.original_direct_edge, vec![Some(0), Some(3), Some(6), Some(9)]);
    // Both terminals send and receive exactly the target, so their vertices need nothing.
    assert_eq!(reduction.p[6].demand, 0);
    assert_eq!(reduction.q[6].demand, 0);
    assert_eq!(
        build_bipartite_reduction(&graph, source, sink, 3),
        Err(InteriorPointMaxFlowError::ReductionLimit)
    );
}

#[test]
fn working_skeleton_balances_every_vertex() {
    let (graph, source, sink) = unit_graph(&[("e0", "s", "a"), ("e1", "a", "t")]);
    let reduction = build_bipartite_reduction(&graph, source, sink, 1).expect("reduction");
    let skeleton = build_working_skeleton(&graph, &reduction).expect("skeleton");
    assert_eq!(skeleton.hub, reduction.p.len() + reduction.q.len());
    assert_eq!(skeleton.node_count, skeleton.hub + 1);
    let mut divergence = vec![0_i64; skeleton.node_count];
    for arc in &skeleton.arcs {
        divergence[arc.from] += arc.initial_flow as i64;
        divergence[arc.to] -= arc.initial_flow as i64;
    }
    for (index, node) in reduction.p.iter().enumerate() {
        assert_eq!(divergence[index], node.demand as i64);
    }
    for (index, node) in reduction.q.iter().enumerate() {
        assert_eq!(divergence[reduction.p.len() + index], -(node.demand as i64));
    }
    assert_eq!(divergence[skeleton.hub], 0);
}

#[test]
fn support_matching_is_perfect() {
    let support = vec![
        SupportEdge { left: 0, right: 0, reduction_edge: None },
        SupportEdge { left: 0, right: 1, reduction_edge: None },
        SupportEdge { left: 1, right: 0, reduction_edge: None },
    ];
    let (selected, work) = support_perfect_matching(2, 2, &support).expect("matching");
    assert_eq!(selected, vec![2, 1]);
    assert!(work > 0);
    assert_eq!(
        support_perfect_matching(2, 3, &support),
        Err(InteriorPointMaxFlowError::RoundingFailure)
    );
    let lonely = vec![SupportEdge { left: 0, right: 0, reduction_edge: None }];
    assert_eq!(
        support_perfect_matching(2, 2, &lonely),
        Err(InteriorPointMaxFlowError::RoundingFailure)
    );
}

fn near_perfect_reduction() -> BipartiteReduction {
    let node = |demand, role| BipartiteNode { demand, role };
    let edge = |p, q| BipartiteEdge { p, q, original_direct: None };
    BipartiteReduction {
        p: vec![node(2, BipartiteRole::OriginalP(0)), node(1, BipartiteRole::OriginalP(1))],
        q: vec![node(1, BipartiteRole::OriginalQ(0)), node(2, BipartiteRole::OriginalQ(1))],
        edges: vec![edge(0, 0), edge(0, 1), edge(1, 0), edge(1, 1)],
        original_direct_edge: Vec::new(),
    }
}

#[test]
fn rounded_matching_is_augmented_to_a_perfect_b_matching() {
    let reduction = near_perfect_reduction();
    assert_eq!(demand_offsets(&reduction.p), Ok(vec![0, 2, 3]));
    // Slot 0 of the first left vertex is already matched along edge 1.
    let support = vec![SupportEdge { left: 0, right: 1, reduction_edge: Some(1) }];
    let (matching, work) =
        complete_b_matching(&reduction, &support, &vec![0], 1, 0).expect("completion");
    let (replayed, replay_work) =
        complete_b_matching(&reduction, &support, &vec![0], 1, 0).expect("replay");
    assert_eq!(matching, replayed);
    assert_eq!(work, replay_work);
    assert!(work > 0);
    assert_eq!(matching.iter().sum::<u64>(), 3);
    assert_eq!(matching[0] + matching[1], 2);
    assert_eq!(matching[2] + matching[3], 1);
    assert_eq!(matching[0] + matching[2], 1);
    assert_eq!(matching[1] + matching[3], 2);
    assert_eq!(
        complete_b_matching(&reduction, &support, &vec![0], 2, 0),
        Err(InteriorPointMaxFlowError::RoundingFailure)
    );
}

#[test]
fn integral_flow_is_certified_at_the_target() {
    let (graph, source, sink) = unit_graph(&[
        ("e0", "s", "a"),
        ("e1", "a", "t"),
        ("e2", "s", "b"),
        ("e3", "b", "t"),
    ]);
    let reduction = build_bipartite_reduction(&graph, source, sink, 2).expect("reduction");
    let mut matching = vec![0_u64; reduction.edges.len()];
    for direct in reduction.original_direct_edge.iter().flatten() {
        matching[*direct] = 1;
    }
    let flows = extract_integral_flow(&graph, &reduction, &matching).expect("flows");
    assert_eq!(flows, vec![1, 1, 1, 1]);
    let certificate = certify_target_flow(&graph, source, sink, 2, &flows).expect("certified");
    assert_eq!(certificate.value, 2);
    assert_eq!(certificate.cut_bound, 2);
    assert_eq!(
        certify_target_flow(&graph, source, sink, 1, &flows),
        Err(InteriorPointMaxFlowError::CertificateFailure)
    );
    assert_eq!(
        certify_target_flow(&graph, source, sink, 1, &vec![1, 0, 0, 0]),
        Err(InteriorPointMaxFlowError::CertificateFailure)
    );
    assert_eq!(
        extract_integral_flow(&graph, &reduction, &vec![1]),
        Err(InteriorPointMaxFlowError::RoundingFailure)
    );
}

#[test]
fn ready_state_marks_terminal_edges_as_normalized_away() {
    let (graph, source, sink) = unit_graph(&[("e0", "a", "s"), ("e1", "t", "b"), ("e2", "s", "t")]);
    assert_eq!(terminal_normalization(&graph, source, sink), vec![true, true, false]);
    let ready = ready_snapshot(&graph, source, sink);
    assert_eq!(ready.stage, InteriorPointMaxFlowStage::Ready);
    assert_eq!(ready.metrics, InteriorPointMaxFlowMetrics::default());
    assert!(ready.edges.iter().all(|edge| edge.fractional_flow.is_zero() && edge.final_flow.is_none()));
    assert_eq!(
        ready.edges.iter().map(|edge| edge.normalized_away).collect::<Vec<_>>(),
        vec![true, true, false]
    );
}

#[test]
fn scalars_keep_finite_bits_and_fold_negative_zero() {
    assert_eq!(InteriorPointScalar::from_bits(f64::NAN.to_bits()), None);
    assert_eq!(InteriorPointScalar::from_bits(f64::INFINITY.to_bits()), None);
    let negative_zero = InteriorPointScalar::from_bits((-0.0_f64).to_bits()).expect("zero");
    assert!(negative_zero.is_zero());
    let value = InteriorPointScalar::from_bits(12.5_f64.to_bits()).expect("finite");
    assert_eq!(f64::from_bits(value.to_bits()), 12.5);
}

#[test]
fn events_follow_the_catalog_and_stage_order() {
    let (graph, source, sink) = unit_graph(&[("e0", "s", "a"), ("e1", "a", "t")]);
    let before = ready_snapshot(&graph, source, sink);
    let mut after = before.clone();
    after.stage = InteriorPointMaxFlowStage::EnumerateTargetCut;
    let event = InteriorPointMaxFlowTraceEvent {
        catalog_id: interior_point_catalog_id(InteriorPointMaxFlowStage::EnumerateTargetCut)
            .expect("catalog"),
        before: before.clone(),
        after: after.clone(),
    };
    assert!(valid_interior_point_event(&event));
    let renamed = InteriorPointMaxFlowTraceEvent { catalog_id: "ipm.optimal", ..event.clone() };
    assert!(!valid_interior_point_event(&renamed));
    let mut skipped = after;
    skipped.stage = InteriorPointMaxFlowStage::Optimal;
    let jump = InteriorPointMaxFlowTraceEvent { catalog_id: "ipm.optimal", before, after: skipped };
    assert!(!valid_interior_point_event(&jump));
}

#[test]
fn trace_check_rejects_a_forged_ready_state() {
    let (graph, source, sink) = unit_graph(&[("e0", "s", "a"), ("e1", "a", "t")]);
    let mut base = ready_snapshot(&graph, source, sink);
    base.target_value = 1;
    let flows = vec![1, 1];
    let certificate = check_max_flow(&graph, source, sink, &flows).expect("certificate");
    let result = InteriorPointMaxFlowResult {
        flows,
        certificate,
        final_snapshot: base.clone(),
        metrics: InteriorPointMaxFlowMetrics::default(),
    };
    let trace = InteriorPointMaxFlowTraceResult {
        result,
        base_snapshot: base.clone(),
        events: Vec::new(),
        final_snapshot: base,
    };
    assert_eq!(
        check_interior_point_max_flow_trace(&graph, source, sink, &trace),
        Err(InteriorPointMaxFlowError::TraceVerification)
    );
    assert_eq!(
        check_interior_point_max_flow_trace(&graph, source, source, &trace),
        Err(InteriorPointMaxFlowError::InvalidTerminals)
    );
}

#[test]
fn any_perfect_b_matching_encodes_a_feasible_flow_of_the_target() {
    let (graph, source, sink) = unit_graph(&[
        ("e0", "s", "a"),
        ("e1", "a", "t"),
        ("e2", "s", "b"),
        ("e3", "b", "t"),
        ("e4", "a", "b"),
    ]);
    for target in [1_u64, 2] {
        let reduction = build_bipartite_reduction(&graph, source, sink, target).expect("reduction");
        let (matching, _) =
            complete_b_matching(&reduction, &Vec::new(), &Vec::new(), 0, 0).expect("perfect");
        let flows = extract_integral_flow(&graph, &reduction, &matching).expect("flows");
        let mut divergence = vec![0_i64; graph.nodes().len()];
        for (edge, flow) in graph.edges().iter().zip(flows.iter()) {
            assert!(*flow <= edge.capacity());
            divergence[edge.from().as_usize()] += *flow as i64;
            divergence[edge.to().as_usize()] -= *flow as i64;
        }
        for (node, value) in divergence.iter().enumerate() {
            if node == source.as_usize() {
                assert_eq!(*value, target as i64);
            } else if node == sink.as_usize() {
                assert_eq!(*value, -(target as i64));
            } else {
                assert_eq!(*value, 0);
            }
        }
    }
}

#[test]
fn minimum_cut_enumeration_keeps_the_first_least_mask() {
    let (graph, source, sink) = unit_graph(&[("e0", "s", "a"), ("e1", "a", "t")]);
    let (value, side, count) = enumerate_min_cut(&graph, source, sink);
    assert_eq!(value, 1);
    assert_eq!(count, 4);
    assert!(side.iter().enumerate().all(|(index, &inside)| inside == (index == source.as_usize())));
    assert!(!side[sink.as_usize()]);
}
