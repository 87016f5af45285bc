use flow::certificate::check_min_cost_flow;
use flow::ids::{EdgeId, NodeId};
use flow::mean_cycle::solve_minimum_mean_cycle_canceling;
use flow::model::{FlowNetwork, FlowNode, UnresolvedFlowEdge};
use flow::network_simplex::{
    solve_dynamic_tree_network_simplex, solve_primal_network_simplex,
    trace_dynamic_tree_network_simplex, trace_primal_network_simplex,
};
use flow::trace::{apply_trace_event, FlowTraceDirection};

fn network(nodes: &[(&str, i64)], edges: &[(&str, &str, &str, u64, u64, i64)]) -> FlowNetwork {
    FlowNetwork::new(
        nodes
            .iter()
            .map(|(id, supply)| FlowNode::new(NodeId::parse(id).expect("valid node"), *supply))
            .collect(),
        edges
            .iter()
            .map(|(id, from, to, lower, capacity, cost)| UnresolvedFlowEdge {
                id: EdgeId::parse(id).expect("valid edge"),
                from: NodeId::parse(from).expect("valid tail"),
                to: NodeId::parse(to).expect("valid head"),
                lower: *lower,
                capacity: *capacity,
                cost: *cost,
            })
            .collect(),
    )
    .expect("valid graph")
}

#[test]
fn solves_lower_bounds_and_disconnected_negative_cycle() {
    let graph = network(
        &[("s", 0), ("t", 0), ("x", 0), ("y", 0)],
        &[
            ("st", "s", "t", 1, 3, 5),
            ("xy", "x", "y", 0, 2, -4),
            ("yx", "y", "x", 0, 2, 1),
        ],
    );
    let target = [2, -2, 0, 0];

    let result = solve_primal_network_simplex(&graph, &target).expect("simplex succeeds");

    assert_eq!(result.flows, vec![2, 2, 2]);
    assert_eq!(result.certificate.total_cost, 4);
    assert!(result.metrics.pivots > 0);
    assert!(result.metrics.basis_exchanges > 0);
    assert!(result.metrics.degenerate_pivots > 0);
    check_min_cost_flow(&graph, &target, &result.flows).expect("independent certificate");
}

#[test]
fn self_loop_can_flip_directly_between_bounds() {
    let graph = network(&[("v", 0)], &[("negative-loop", "v", "v", 1, 4, -3)]);

    let result = solve_primal_network_simplex(&graph, &[0]).expect("simplex succeeds");
    let dynamic = solve_dynamic_tree_network_simplex(&graph, &[0]).expect("dynamic simplex succeeds");

    assert_eq!(result.flows, vec![4]);
    assert_eq!(result.certificate.total_cost, -12);
    assert_eq!(result.metrics.bound_flips, 1);
    assert_eq!(dynamic.flows, result.flows);
    assert_eq!(dynamic.metrics.simplex.bound_flips, 1);
    assert_eq!(dynamic.metrics.directional_forest_rebuilds, 1);
}

#[test]
fn dynamic_tree_pivots_query_update_cut_and_link_directional_forests() {
    let graph = network(
        &[("s", 0), ("a", 0), ("t", 0), ("x", 0)],
        &[
            ("sa", "s", "a", 1, 5, 4),
            ("at", "a", "t", 0, 5, -2),
            ("st", "s", "t", 0, 4, 7),
            ("as", "a", "s", 0, 2, 1),
            ("xx", "x", "x", 0, 3, -1),
        ],
    );
    let target = [3, 0, -3, 0];
    let explicit = solve_primal_network_simplex(&graph, &target).expect("explicit simplex");
    let dynamic = solve_dynamic_tree_network_simplex(&graph, &target).expect("dynamic simplex");

    assert_eq!(dynamic.flows, explicit.flows);
    assert_eq!(dynamic.certificate, explicit.certificate);
    assert!(dynamic.metrics.path_minimum_queries > 0);
    assert!(dynamic.metrics.path_updates > 0);
    assert!(dynamic.metrics.tree_cuts > 0);
    assert_eq!(dynamic.metrics.tree_links, dynamic.metrics.tree_cuts);
    assert!(dynamic.metrics.directional_forest_rebuilds > 1);
    assert!(dynamic.metrics.directional_value_validations > 1);
}

fn triangle() -> FlowNetwork {
    network(
        &[("s", 0), ("a", 0), ("t", 0)],
        &[
            ("sa", "s", "a", 0, 3, 2),
            ("st", "s", "t", 0, 3, 7),
            ("at", "a", "t", 0, 3, -1),
        ],
    )
}

#[test]
fn trace_replays_in_both_directions_and_exposes_basis() {
    let graph = triangle();
    let target = [2, 0, -2];
    let fast = solve_primal_network_simplex(&graph, &target).expect("fast succeeds");
    let trace = trace_primal_network_simplex(&graph, &target).expect("trace succeeds");

    assert_eq!(fast, trace.result);
    assert!(trace.events.iter().any(|event| {
        event.catalog_id == "primal-network-simplex.form-basic-cycle" && !event.entity_refs.is_empty()
    }));
    assert!(trace
        .events
        .iter()
        .any(|event| event.catalog_id == "primal-network-simplex.exchange-basis"));

    let mut replay = trace.base_snapshot.clone();
    for event in &trace.events {
        apply_trace_event(&graph, &mut replay, event, FlowTraceDirection::Forward).expect("forward replay");
    }
    assert_eq!(replay, trace.final_snapshot);
    for event in trace.events.iter().rev() {
        apply_trace_event(&graph, &mut replay, event, FlowTraceDirection::Reverse).expect("reverse replay");
    }
    assert_eq!(replay, trace.base_snapshot);
}

#[test]
fn dynamic_tree_trace_replays_cycle_minimum_and_cut_link_boundaries() {
    let graph = triangle();
    let target = [2, 0, -2];
    let fast = solve_dynamic_tree_network_simplex(&graph, &target).expect("fast succeeds");
    let trace = trace_dynamic_tree_network_simplex(&graph, &target).expect("trace succeeds");

    assert_eq!(fast, trace.result);
    assert!(trace.events.iter().any(|event| {
        event.catalog_id == "dynamic-tree-network-simplex.query-cycle-minimum" && !event.entity_refs.is_empty()
    }));
    assert!(trace
        .events
        .iter()
        .any(|event| event.catalog_id == "dynamic-tree-network-simplex.cut-link-basis"));

    let mut replay = trace.base_snapshot.clone();
    for event in &trace.events {
        apply_trace_event(&graph, &mut replay, event, FlowTraceDirection::Forward).expect("forward replay");
    }
    assert_eq!(replay, trace.final_snapshot);
    for event in trace.events.iter().rev() {
        apply_trace_event(&graph, &mut replay, event, FlowTraceDirection::Reverse).expect("reverse replay");
    }
    assert_eq!(replay, trace.base_snapshot);
}

fn next(seed: &mut u64) -> u64 {
    *seed = seed
        .wrapping_mul(6_364_136_223_846_793_005)
        .wrapping_add(1_442_695_040_888_963_407);
    *seed
}

#[test]
fn deterministic_differential_cases_match_cycle_canceling() {
    let mut seed = 0x7a91_c33d_5e21_11f0_u64;
    for case in 0..48 {
        let node_count = 2 + (next(&mut seed) % 5) as usize;
        let mut nodes = (0..node_count)
            .map(|index| FlowNode::new(NodeId::parse(&format!("v{index}")).expect("valid node"), 0))
            .collect::<Vec<_>>();
        let amount = 1 + i64::try_from(next(&mut seed) % 4).expect("small amount");
        nodes[0] = FlowNode::new(NodeId::parse("v0").expect("valid node"), amount);
        nodes[node_count - 1] = FlowNode::new(
            NodeId::parse(&format!("v{}", node_count - 1)).expect("valid node"),
            -amount,
        );
        let mut edges = Vec::new();
        for index in 0..node_count - 1 {
            edges.push(UnresolvedFlowEdge {
                id: EdgeId::parse(&format!("backbone-{index}")).expect("valid edge"),
                from: NodeId::parse(&format!("v{index}")).expect("valid tail"),
                to: NodeId::parse(&format!("v{}", index + 1)).expect("valid head"),
                lower: 0,
                capacity: u64::try_from(amount).expect("positive amount") + 3,
                cost: i64::try_from(next(&mut seed) % 11).expect("small cost") - 5,
            });
        }
        let extras = 2 + (next(&mut seed) % 8) as usize;
        for edge_index in 0..extras {
            let node_count_u64 = u64::try_from(node_count).expect("small node count");
            let from = usize::try_from(next(&mut seed) % node_count_u64).expect("node index fits");
            let to = usize::try_from(next(&mut seed) % node_count_u64).expect("node index fits");
            edges.push(UnresolvedFlowEdge {
                id: EdgeId::parse(&format!("extra-{edge_index}")).expect("valid edge"),
                from: NodeId::parse(&format!("v{from}")).expect("valid tail"),
                to: NodeId::parse(&format!("v{to}")).expect("valid head"),
                lower: 0,
                capacity: 1 + next(&mut seed) % 6,
                cost: i64::try_from(next(&mut seed) % 15).expect("small cost") - 7,
            });
        }
        let graph = FlowNetwork::new(nodes, edges).expect("valid random graph");
        let target = graph
            .nodes()
            .iter()
            .map(|node| i128::from(node.supply()))
            .collect::<Vec<_>>();
        let simplex = solve_primal_network_simplex(&graph, &target)
            .unwrap_or_else(|error| panic!("case {case}: simplex failed: {error:?}"));
        let dynamic = solve_dynamic_tree_network_simplex(&graph, &target)
            .unwrap_or_else(|error| panic!("case {case}: dynamic simplex failed: {error:?}"));
        let reference = solve_minimum_mean_cycle_canceling(&graph, &target)
            .unwrap_or_else(|error| panic!("case {case}: reference failed: {error:?}"));
        assert_eq!(simplex.certificate.total_cost, reference.certificate.total_cost, "case {case}");
        assert_eq!(dynamic.certificate.total_cost, reference.certificate.total_cost, "dynamic case {case}");
    }
}

#[test]
fn initial_star_basis_constants_follow_the_instance() {
    let graph = network(
        &[("s", 0), ("t", 0), ("x", 0), ("y", 0)],
        &[
            ("st", "s", "t", 1, 3, 5),
            ("xy", "x", "y", 0, 2, -4),
            ("yx", "y", "x", 0, 2, 1),
        ],
    );
    let target = [2, -2, 0, 0];
    let result = solve_primal_network_simplex(&graph, &target).expect("simplex succeeds");
    assert_eq!(result.artificial_cost, 30);
    assert_eq!(result.pricing_block_size, 2);
    let dynamic = solve_dynamic_tree_network_simplex(&graph, &target).expect("dynamic simplex succeeds");
    assert_eq!(dynamic.artificial_cost, 30);
    assert_eq!(dynamic.pricing_block_size, 2);
}
