use flow::min_cost::{event_id, pseudocode_line, SspTraceIdentity};
use flow::certificate::{check_min_cost_flow, fixed_flow_divergences, supply_divergences, CertificateError};
use flow::feasibility::{FeasibilityError, FeasibilityExecution, FeasibilityUse};
use flow::ids::{EdgeId, NodeId};
use flow::mean_certificate::{
    find_negative_cycle, is_negative_simple_cycle, shifted_cost_potentials, ShiftedPotentialsError,
};
use flow::min_cost::{
    check_successive_shortest_path_trace, solve_bellman_ford_ssp, solve_successive_shortest_path,
    trace_bellman_ford_ssp, trace_successive_shortest_path, BellmanFordSspError,
    BellmanFordSspResult, PotentialDijkstraSspError, SuccessiveShortestPathTraceCheckError,
};
use flow::model::{FlowNetwork, FlowNode, NodeIndex, UnresolvedFlowEdge};
use flow::potential_dijkstra::{solve_potential_dijkstra_ssp, trace_potential_dijkstra_ssp};
use flow::trace::{
    apply_trace_event, FlowTraceDirection, FlowTraceEntityRef, FlowTracePatch, TraceGranularityV1,
};

fn network(nodes: &[(&str, i64)], edges: &[(&str, &str, &str, u64, u64, i64)]) -> FlowNetwork {
    FlowNetwork::new(
        nodes
            .iter()
            .map(|&(id, supply)| FlowNode::new(NodeId::parse(id).expect("node id"), supply))
            .collect(),
        edges
            .iter()
            .map(|&(id, from, to, lower, capacity, cost)| UnresolvedFlowEdge {
                id: EdgeId::parse(id).expect("edge id"),
                from: NodeId::parse(from).expect("tail"),
                to: NodeId::parse(to).expect("head"),
                lower,
                capacity,
                cost,
            })
            .collect(),
    )
    .expect("valid graph")
}

fn terminals(graph: &FlowNetwork) -> (NodeIndex, NodeIndex) {
    (
        graph
            .node_index(&NodeId::parse("s").expect("source id"))
            .expect("source"),
        graph
            .node_index(&NodeId::parse("t").expect("sink id"))
            .expect("sink"),
    )
}

fn flow_for(graph: &FlowNetwork, result: &BellmanFordSspResult, edge_id: &str) -> u64 {
    let index = graph
        .edge_index(&EdgeId::parse(edge_id).expect("edge id"))
        .expect("edge");
    result.flows[index.as_usize()]
}

#[test]
fn accepts_negative_edge_without_cycle_and_finds_minimum_cost() {
    let graph = network(
        &[("a", 0), ("s", 0), ("t", 0)],
        &[
            ("negative", "s", "a", 0, 2, -3),
            ("finish", "a", "t", 0, 2, 4),
            ("direct", "s", "t", 0, 2, 5),
        ],
    );
    let (source, sink) = terminals(&graph);
    let target = fixed_flow_divergences(&graph, source, sink, 2).expect("target");
    let result = solve_bellman_ford_ssp(&graph, &target).expect("minimum cost");

    assert_eq!(result.certificate.total_cost, 2);
    assert_eq!(flow_for(&graph, &result, "negative"), 2);
    assert_eq!(flow_for(&graph, &result, "finish"), 2);
    assert_eq!(flow_for(&graph, &result, "direct"), 0);
}

#[test]
fn rejects_disconnected_negative_cycle_before_augmentation() {
    let graph = network(
        &[("s", 0), ("t", 0), ("x", 0)],
        &[("path", "s", "t", 0, 1, 1), ("bad", "x", "x", 0, 1, -1)],
    );
    let (source, sink) = terminals(&graph);
    let target = fixed_flow_divergences(&graph, source, sink, 1).expect("target");

    assert_eq!(
        solve_bellman_ford_ssp(&graph, &target),
        Err(BellmanFordSspError::Certificate(CertificateError::NegativeCycle))
    );
}

#[test]
fn combines_lower_bounds_supplies_and_fixed_terminal_flow() {
    let graph = network(
        &[("a", -1), ("s", 1), ("t", 0)],
        &[
            ("sa", "s", "a", 1, 3, -2),
            ("at", "a", "t", 0, 2, 3),
            ("st", "s", "t", 0, 2, 5),
        ],
    );
    let (source, sink) = terminals(&graph);
    let target = fixed_flow_divergences(&graph, source, sink, 1).expect("target");
    let result = solve_bellman_ford_ssp(&graph, &target).expect("minimum cost");

    check_min_cost_flow(&graph, &target, &result.flows).expect("certificate");
}

fn diamond() -> FlowNetwork {
    network(
        &[("a", 0), ("b", 0), ("s", 0), ("t", 0)],
        &[
            ("sa", "s", "a", 0, 2, -2),
            ("at", "a", "t", 0, 2, 3),
            ("sb", "s", "b", 0, 2, 1),
            ("bt", "b", "t", 0, 2, 2),
            ("st", "s", "t", 0, 3, 7),
        ],
    )
}

#[test]
fn min_cost_trace_replays_both_directions_and_matches_fast_result() {
    let graph = diamond();
    let (source, sink) = terminals(&graph);
    let target = fixed_flow_divergences(&graph, source, sink, 4).expect("target");
    let fast = solve_bellman_ford_ssp(&graph, &target).expect("fast result");
    let traced = trace_bellman_ford_ssp(&graph, &target).expect("trace result");

    assert_eq!(traced.result, fast);
    assert!(traced
        .events
        .iter()
        .any(|event| event.catalog_id == "bellman-ford-ssp.shortest-path"));
    assert!(traced
        .events
        .iter()
        .any(|event| event.catalog_id == "bellman-ford-ssp.augment"));

    let mut replay = traced.base_snapshot.clone();
    for event in &traced.events {
        apply_trace_event(&graph, &mut replay, event, FlowTraceDirection::Forward)
            .expect("forward event");
    }
    assert_eq!(replay, traced.final_snapshot);
    assert_eq!(replay.flows, fast.flows);
    assert!(replay.remaining_divergence.iter().all(|&value| value == 0));
    for event in traced.events.iter().rev() {
        apply_trace_event(&graph, &mut replay, event, FlowTraceDirection::Reverse)
            .expect("reverse event");
    }
    assert_eq!(replay, traced.base_snapshot);
}

#[test]
fn successive_shortest_path_has_dedicated_identity_and_independent_prefix_checker() {
    let graph = diamond();
    let (source, sink) = terminals(&graph);
    let target = fixed_flow_divergences(&graph, source, sink, 4).expect("target");
    let fast = solve_successive_shortest_path(&graph, &target).expect("fast SSP");
    let traced = trace_successive_shortest_path(&graph, &target).expect("trace SSP");

    assert_eq!(traced.result, fast);
    assert!(traced.events.iter().all(|event| {
        event.catalog_id.starts_with("successive-shortest-path.")
            && event.pseudocode_line.starts_with("successive-shortest-path:")
    }));
    assert!(traced.events.iter().any(|event| {
        event.catalog_id == "successive-shortest-path.relax"
            && event.minimum_granularity == TraceGranularityV1::Micro
            && event
                .entity_refs
                .iter()
                .filter(|entity| matches!(entity, FlowTraceEntityRef::ResidualArc(_)))
                .count()
                == 1
            && event
                .entity_refs
                .iter()
                .filter(|entity| matches!(entity, FlowTraceEntityRef::Node(_)))
                .count()
                == 1
    }));
    assert!(traced.events.iter().any(|event| {
        event.catalog_id == "successive-shortest-path.reconstruct-path"
            && event.minimum_granularity == TraceGranularityV1::Micro
            && event
                .entity_refs
                .iter()
                .filter(|entity| matches!(entity, FlowTraceEntityRef::ResidualArc(_)))
                .count()
                == 1
    }));
    assert!(traced.events.iter().any(|event| {
        event.catalog_id == "successive-shortest-path.bottleneck"
            && event.minimum_granularity == TraceGranularityV1::Micro
            && event
                .entity_refs
                .iter()
                .filter(|entity| matches!(entity, FlowTraceEntityRef::ResidualArc(_)))
                .count()
                == 1
    }));
    assert!(traced.events.iter().all(|event| {
        event.minimum_granularity != TraceGranularityV1::Operation
            || event.catalog_id == "successive-shortest-path.augment"
    }));
    let bottleneck_index = traced
        .events
        .iter()
        .position(|event| event.catalog_id == "successive-shortest-path.bottleneck")
        .expect("precommit bottleneck event");
    let augment_index = traced
        .events
        .iter()
        .position(|event| event.catalog_id == "successive-shortest-path.augment")
        .expect("commit event");
    assert!(bottleneck_index < augment_index);
    assert!(traced.events[bottleneck_index]
        .patches
        .iter()
        .all(|patch| !matches!(patch, FlowTracePatch::EdgeFlow { .. })));
    assert!(traced.events[augment_index]
        .detail
        .as_ref()
        .is_some_and(|detail| detail.label == "amount" && detail.value > 0));
    check_successive_shortest_path_trace(&graph, &target, &traced)
        .expect("source invariant and replay checker");

    let mut corrupted = traced.clone();
    corrupted.events[0].catalog_id = "bellman-ford-ssp.shortest-path".to_owned();
    assert_eq!(
        check_successive_shortest_path_trace(&graph, &target, &corrupted),
        Err(SuccessiveShortestPathTraceCheckError::UnexpectedEvent)
    );
}

#[test]
fn potential_dijkstra_accepts_negative_edges_and_matches_bellman_ford() {
    let graph = network(
        &[("a", 0), ("b", 0), ("s", 0), ("t", 0)],
        &[
            ("sa", "s", "a", 0, 2, -4),
            ("at", "a", "t", 0, 2, 5),
            ("sb", "s", "b", 0, 2, 1),
            ("bt", "b", "t", 0, 2, 2),
            ("st", "s", "t", 0, 3, 8),
        ],
    );
    let (source, sink) = terminals(&graph);
    let target = fixed_flow_divergences(&graph, source, sink, 4).expect("target");

    let bellman = solve_bellman_ford_ssp(&graph, &target).expect("Bellman-Ford SSP");
    let dijkstra = solve_potential_dijkstra_ssp(&graph, &target).expect("potential Dijkstra SSP");

    assert_eq!(dijkstra.flows, bellman.flows);
    assert_eq!(dijkstra.certificate.total_cost, 8);
    assert_eq!(dijkstra.metrics.augmentations, 2);
    assert_eq!(dijkstra.metrics.dijkstra_runs, 2);
    assert_eq!(dijkstra.metrics.potential_updates, 2);
    assert!(dijkstra.metrics.settled_nodes >= 2);
    assert!(dijkstra.metrics.residual_arc_scans > 0);
}

#[test]
fn potential_update_preserves_unreachable_residual_components() {
    let graph = network(
        &[("s", 0), ("t", 0), ("x", 0), ("y", 0)],
        &[("path", "s", "t", 0, 2, 3), ("xy", "x", "y", 0, 1, -7)],
    );
    let (source, sink) = terminals(&graph);
    let target = fixed_flow_divergences(&graph, source, sink, 2).expect("target");

    let result = solve_potential_dijkstra_ssp(&graph, &target).expect("disconnected component safe");

    assert_eq!(result.certificate.total_cost, 6);
    check_min_cost_flow(&graph, &target, &result.flows).expect("independent certificate");
}

#[test]
fn potential_dijkstra_selects_deficit_by_original_not_reduced_distance() {
    let graph = network(
        &[("a-deficit", -1), ("s", 2), ("z-deficit", -1)],
        &[
            ("to-a", "s", "a-deficit", 0, 1, -3),
            ("to-z", "s", "z-deficit", 0, 1, -4),
        ],
    );
    let target = supply_divergences(&graph).expect("balanced target");
    let traced = trace_potential_dijkstra_ssp(&graph, &target).expect("minimum cost trace");
    let mut replay = traced.base_snapshot.clone();
    for event in &traced.events {
        apply_trace_event(&graph, &mut replay, event, FlowTraceDirection::Forward)
            .expect("replay search boundary");
        if event.catalog_id == "potential-dijkstra-ssp.shortest-path" {
            break;
        }
    }
    let selected = &replay.active_path;

    assert_eq!(selected.len(), 1);
    assert_eq!(selected[0].original_edge().as_str(), "to-z");
    assert_eq!(traced.result.certificate.total_cost, -7);
}

#[test]
fn potential_dijkstra_rejects_negative_cycle_before_search() {
    let graph = network(
        &[("s", 0), ("t", 0), ("x", 0)],
        &[("path", "s", "t", 0, 1, 1), ("bad", "x", "x", 0, 1, -1)],
    );
    let (source, sink) = terminals(&graph);
    let target = fixed_flow_divergences(&graph, source, sink, 1).expect("target");

    assert_eq!(
        solve_potential_dijkstra_ssp(&graph, &target),
        Err(PotentialDijkstraSspError::Certificate(CertificateError::NegativeCycle))
    );
}

#[test]
fn potential_dijkstra_combines_lower_bounds_supplies_and_fixed_flow() {
    let graph = network(
        &[("a", -1), ("s", 1), ("t", 0)],
        &[
            ("sa", "s", "a", 1, 3, -2),
            ("at", "a", "t", 0, 2, 3),
            ("st", "s", "t", 0, 2, 5),
        ],
    );
    let (source, sink) = terminals(&graph);
    let target = fixed_flow_divergences(&graph, source, sink, 1).expect("target");

    let result = solve_potential_dijkstra_ssp(&graph, &target).expect("minimum cost");

    check_min_cost_flow(&graph, &target, &result.flows).expect("certificate");
}

#[test]
fn potential_dijkstra_trace_replays_and_exposes_price_phases() {
    let graph = diamond();
    let (source, sink) = terminals(&graph);
    let target = fixed_flow_divergences(&graph, source, sink, 4).expect("target");
    let fast = solve_potential_dijkstra_ssp(&graph, &target).expect("fast result");
    let traced = trace_potential_dijkstra_ssp(&graph, &target).expect("trace result");

    assert_eq!(traced.result, fast);
    for catalog_id in [
        "potential-dijkstra-ssp.initial-potentials",
        "potential-dijkstra-ssp.shortest-path",
        "potential-dijkstra-ssp.update-potentials",
        "potential-dijkstra-ssp.augment",
        "potential-dijkstra-ssp.optimal",
    ] {
        assert!(
            traced.events.iter().any(|event| event.catalog_id == catalog_id),
            "missing {catalog_id}"
        );
    }
    let shortest_path = traced
        .events
        .iter()
        .find(|event| event.catalog_id == "potential-dijkstra-ssp.shortest-path")
        .expect("shortest-path event");
    assert!(shortest_path.patches.iter().any(|patch| matches!(
        patch,
        FlowTracePatch::ActivePath { after, .. } if !after.is_empty()
    )));

    let mut replay = traced.base_snapshot.clone();
    for event in &traced.events {
        apply_trace_event(&graph, &mut replay, event, FlowTraceDirection::Forward)
            .expect("forward event");
    }
    assert_eq!(replay, traced.final_snapshot);
    assert_eq!(replay.flows, fast.flows);
    assert!(replay.remaining_divergence.iter().all(|&value| value == 0));
    for event in traced.events.iter().rev() {
        apply_trace_event(&graph, &mut replay, event, FlowTraceDirection::Reverse)
            .expect("reverse event");
    }
    assert_eq!(replay, traced.base_snapshot);
}

#[test]
fn ssp_event_identities_follow_their_catalogue() {
    assert_eq!(event_id(SspTraceIdentity::BellmanFord, "relax"), "bellman-ford-ssp.relax");
    assert_eq!(event_id(SspTraceIdentity::SuccessiveShortestPath, "optimal"), "successive-shortest-path.optimal");
    assert_eq!(event_id(SspTraceIdentity::BellmanFord, "unknown"), "successive-shortest-path.invalid-event");
    assert_eq!(pseudocode_line(SspTraceIdentity::SuccessiveShortestPath, "augment"), "successive-shortest-path:augment-bottleneck");
    assert_eq!(pseudocode_line(SspTraceIdentity::BellmanFord, "bottleneck"), "bellman-ford-ssp:measure-bottleneck");
}

#[test]
fn infeasible_divergences_come_with_a_refutation() {
    let graph = network(&[("s", 0), ("t", 0)], &[("st", "s", "t", 0, 1, 0)]);
    let (s, t) = terminals(&graph);
    let mut feasibility = FeasibilityExecution::untracked();
    let mut required = vec![0i128; 2];
    required[s.as_usize()] = 2;
    required[t.as_usize()] = -2;
    assert_eq!(
        feasibility.find_feasible_flow(&graph, &required, FeasibilityUse::PrecheckOnly),
        Err(FeasibilityError::Infeasible)
    );
    required[t.as_usize()] = 0;
    assert_eq!(
        feasibility.find_feasible_flow(&graph, &required, FeasibilityUse::PrecheckOnly),
        Err(FeasibilityError::Infeasible)
    );
    required[s.as_usize()] = 1;
    required[t.as_usize()] = -1;
    assert_eq!(feasibility.find_feasible_flow(&graph, &required, FeasibilityUse::PrecheckOnly), Ok(vec![1]));
}

#[test]
fn negative_residual_cycle_is_traced_and_refutes_optimality() {
    let graph = network(&[("x", 0), ("y", 0)], &[("xy", "x", "y", 0, 2, -4), ("yx", "y", "x", 0, 2, 1)]);
    assert_eq!(check_min_cost_flow(&graph, &[0, 0], &[0, 0]), Err(CertificateError::NegativeCycle));
    let cycle = find_negative_cycle(&graph, &[0, 0]).expect("negative cycle");
    assert_eq!(cycle.len(), 2);
    assert!(is_negative_simple_cycle(&graph, &[0, 0], &cycle));
    assert_eq!(find_negative_cycle(&graph, &[2, 2]), None);
    let certificate = check_min_cost_flow(&graph, &[0, 0], &[2, 2]).expect("least cost");
    assert_eq!(certificate.total_cost, -6);
}

#[test]
fn shifted_potentials_exist_exactly_down_to_the_least_cycle_mean() {
    let graph = network(&[("x", 0), ("y", 0)], &[("xy", "x", "y", 0, 2, -4), ("yx", "y", "x", 0, 2, 1)]);
    let flows = [0u64, 0u64];
    assert!(shifted_cost_potentials(&graph, &flows, -3, 2).is_ok());
    assert!(shifted_cost_potentials(&graph, &flows, -2, 1).is_ok());
    assert_eq!(shifted_cost_potentials(&graph, &flows, -1, 1), Err(ShiftedPotentialsError::CycleBelowMean));
    assert_eq!(shifted_cost_potentials(&graph, &flows, 0, 1), Err(ShiftedPotentialsError::CycleBelowMean));
}
