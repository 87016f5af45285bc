use flow::certificate::{check_min_cost_flow, fixed_flow_divergences, supply_divergences};
use flow::feasibility::FeasibilityError;
use flow::ids::{EdgeId, NodeId};
use flow::mean_cycle::{
    minimum_cycle_mean, solve_minimum_mean_cycle_canceling, trace_minimum_mean_cycle_canceling,
    MinimumMeanCycleCancelingError,
};
use flow::min_cost::solve_bellman_ford_ssp;
use flow::model::{FlowNetwork, FlowNode, UnresolvedFlowEdge};
use flow::trace::{
    apply_trace_event, FlowTraceDirection, FlowTraceEntityRef, FlowTraceMetricId, FlowTracePatch,
};

fn network(nodes: &[(&str, i64)], edges: &[(&str, &str, &str, u64, u64, i64)]) -> FlowNetwork {
    FlowNetwork::new(
        nodes
            .iter()
            .map(|&(id, supply)| FlowNode::new(NodeId::parse(id).expect("node id"), supply))
            .collect(),
        edges
            .iter()
            .map(|&(id, from, to, lower, capacity, cost)| UnresolvedFlowEdge {
                id: EdgeId::parse(id).expect("edge id"),
                from: NodeId::parse(from).expect("tail"),
                to: NodeId::parse(to).expect("head"),
                lower,
                capacity,
                cost,
            })
            .collect(),
    )
    .expect("valid graph")
}

#[test]
fn selects_mean_cost_instead_of_total_cycle_cost() {
    let graph = network(
        &[("a", 0), ("b", 0), ("x", 0)],
        &[
            ("ab", "a", "b", 0, 1, -3),
            ("ba", "b", "a", 0, 1, -2),
            ("loop", "x", "x", 0, 1, -3),
        ],
    );
    let target = supply_divergences(&graph).expect("target");

    let traced = trace_minimum_mean_cycle_canceling(&graph, &target).expect("minimum cost");
    let selected = traced
        .events
        .iter()
        .find(|event| event.catalog_id == "minimum-mean-cycle-canceling.select-minimum-mean-cycle")
        .expect("selection");

    assert_eq!(
        selected
            .detail
            .as_ref()
            .map(|detail| (detail.label.as_str(), detail.value)),
        Some(("cycle-cost", -3))
    );
    let mut replay = traced.base_snapshot.clone();
    for event in &traced.events {
        apply_trace_event(&graph, &mut replay, event, FlowTraceDirection::Forward)
            .expect("forward replay");
        if event.catalog_id == "minimum-mean-cycle-canceling.select-minimum-mean-cycle" {
            assert_eq!(replay.active_path.len(), 1);
            break;
        }
    }
    assert_eq!(traced.result.certificate.total_cost, -8);
    assert_eq!(traced.result.metrics.canceled_cycles, 2);
}

#[test]
fn matches_simple_cycle_canceling_with_bounds_supplies_and_fixed_flow() {
    let graph = network(
        &[("s", 2), ("a", 0), ("t", -2), ("x", 0)],
        &[
            ("sa", "s", "a", 1, 4, 2),
            ("at", "a", "t", 0, 4, -1),
            ("st", "s", "t", 0, 2, 5),
            ("loop", "x", "x", 0, 3, -2),
        ],
    );
    let source = graph
        .node_index(&NodeId::parse("s").expect("source id"))
        .expect("source");
    let sink = graph
        .node_index(&NodeId::parse("t").expect("sink id"))
        .expect("sink");
    let mut target = supply_divergences(&graph).expect("supply target");
    let fixed = fixed_flow_divergences(&graph, source, sink, 1).expect("fixed target");
    for (entry, addition) in target.iter_mut().zip(fixed) {
        *entry += addition;
    }

    let minimum_mean = solve_minimum_mean_cycle_canceling(&graph, &target).expect("minimum mean");

    // The fixed-flow target already carries the supplies, so five units leave
    // s: four on s-a-t at cost 1 each, one on s-t at cost 5, and the
    // self-loop saturated at -2 per unit.
    assert_eq!(minimum_mean.certificate.total_cost, 3);
    check_min_cost_flow(&graph, &target, &minimum_mean.flows).expect("certificate");
}

#[test]
fn trace_replays_in_both_directions_and_matches_fast_result() {
    let graph = network(
        &[("x", 0), ("y", 0)],
        &[("xy", "x", "y", 0, 2, -3), ("yx", "y", "x", 0, 2, 1)],
    );
    let target = supply_divergences(&graph).expect("target");
    let fast = solve_minimum_mean_cycle_canceling(&graph, &target).expect("fast");
    let traced = trace_minimum_mean_cycle_canceling(&graph, &target).expect("trace");

    assert_eq!(traced.result, fast);
    let scans = traced
        .events
        .iter()
        .filter(|event| event.catalog_id == "minimum-mean-cycle-canceling.inspect-residual-arc")
        .collect::<Vec<_>>();
    assert_eq!(
        u128::try_from(scans.len()).expect("scan event count"),
        fast.metrics.residual_arc_scans
    );
    assert!(scans.iter().all(|event| {
        event.entity_refs.len() == 1
            && matches!(event.entity_refs[0], FlowTraceEntityRef::ResidualArc(_))
            && event.patches.iter().any(|patch| {
                matches!(
                    patch,
                    FlowTracePatch::Metric {
                        metric: FlowTraceMetricId::ResidualArcScans,
                        before,
                        after,
                    } if *after == before.saturating_add(1)
                )
            })
    }));
    let stage_labels = [
        "residual-inventory scan ordinal",
        "karp-dp scan ordinal",
        "tight-potential scan ordinal",
        "tight-arc scan ordinal",
    ];
    for (index, event) in scans.iter().enumerate() {
        let detail = event.detail.as_ref().expect("scan owns source ordinal");
        assert!(stage_labels.contains(&detail.label.as_str()));
        assert_eq!(detail.value, i128::try_from(index + 1).expect("bounded scan ordinal"));
    }
    let mut replay = traced.base_snapshot.clone();
    for event in &traced.events {
        apply_trace_event(&graph, &mut replay, event, FlowTraceDirection::Forward)
            .expect("forward event");
    }
    assert_eq!(replay, traced.final_snapshot);
    assert_eq!(replay.flows, fast.flows);
    for event in traced.events.iter().rev() {
        apply_trace_event(&graph, &mut replay, event, FlowTraceDirection::Reverse)
            .expect("reverse event");
    }
    assert_eq!(replay, traced.base_snapshot);
}

#[test]
fn rejects_infeasible_balances_before_minimum_mean_search() {
    let graph = network(&[("s", 1), ("t", -1)], &[]);
    let target = supply_divergences(&graph).expect("target");

    assert!(matches!(
        solve_minimum_mean_cycle_canceling(&graph, &target),
        Err(MinimumMeanCycleCancelingError::Feasibility(FeasibilityError::Infeasible))
    ));
}

fn gcd(mut a: u128, mut b: u128) -> u128 {
    while b != 0 {
        let r = a % b;
        a = b;
        b = r;
    }
    if a == 0 { 1 } else { a }
}

fn reduced(numerator: i128, denominator: u64) -> (i128, u64) {
    let divisor = gcd(numerator.unsigned_abs(), u128::from(denominator));
    (
        numerator / i128::try_from(divisor).expect("divisor"),
        denominator / u64::try_from(divisor).expect("divisor"),
    )
}

fn less(a: (i128, u64), b: (i128, u64)) -> bool {
    a.0 * i128::from(b.1) < b.0 * i128::from(a.1)
}

/// Least mean over every simple directed cycle of unit-capacity arcs at zero flow.
fn brute_minimum_cycle_mean(nodes: usize, arcs: &[(usize, usize, i64)]) -> (i128, u64) {
    fn walk(
        arcs: &[(usize, usize, i64)],
        start: usize,
        node: usize,
        visited: &mut [bool],
        cost: i128,
        length: u64,
        best: &mut Option<(i128, u64)>,
    ) {
        for &(from, to, arc_cost) in arcs {
            if from != node {
                continue;
            }
            let next_cost = cost + i128::from(arc_cost);
            if to == start {
                let candidate = reduced(next_cost, length + 1);
                if best.is_none_or(|current| less(candidate, current)) {
                    *best = Some(candidate);
                }
            } else if !visited[to] {
                visited[to] = true;
                walk(arcs, start, to, visited, next_cost, length + 1, best);
                visited[to] = false;
            }
        }
    }
    let mut best = None;
    for start in 0..nodes {
        let mut visited = vec![false; nodes];
        visited[start] = true;
        walk(arcs, start, start, &mut visited, 0, 0, &mut best);
    }
    best.expect("some cycle")
}

#[test]
fn karp_selector_matches_exhaustive_simple_cycles_on_dense_small_graphs() {
    for case in 0_i64..32 {
        let node_count = usize::try_from(2 + case % 4).expect("small node count");
        let nodes = (0..node_count)
            .map(|node| FlowNode::new(NodeId::parse(&format!("v{node}")).expect("node id"), 0))
            .collect::<Vec<_>>();
        let mut edges = Vec::new();
        let mut arcs = Vec::new();
        for from in 0..node_count {
            for to in 0..node_count {
                let cost = (case * 13
                    + i64::try_from(from).expect("from") * 7
                    + i64::try_from(to).expect("to") * 11)
                    % 17
                    - 8;
                edges.push(UnresolvedFlowEdge {
                    id: EdgeId::parse(&format!("e{from}-{to}")).expect("edge id"),
                    from: NodeId::parse(&format!("v{from}")).expect("tail"),
                    to: NodeId::parse(&format!("v{to}")).expect("head"),
                    lower: 0,
                    capacity: 1,
                    cost,
                });
                arcs.push((from, to, cost));
            }
        }
        let graph = FlowNetwork::new(nodes, edges).expect("dense graph");
        let expected = brute_minimum_cycle_mean(node_count, &arcs);
        let selected = minimum_cycle_mean(&graph, &vec![0; graph.edges().len()]).expect("Karp selection");

        if expected.0 < 0 {
            assert_eq!(selected.expect("negative cycle"), expected, "case {case}");
        } else {
            assert!(selected.is_none(), "case {case}");
        }
    }
}

#[test]
fn karp_selector_reports_none_without_negative_cycles() {
    let graph = network(
        &[("x", 0), ("y", 0)],
        &[("xy", "x", "y", 0, 2, 3), ("yx", "y", "x", 0, 2, -3)],
    );
    assert_eq!(minimum_cycle_mean(&graph, &[0, 0]), Ok(None));
    let bellman = solve_bellman_ford_ssp(&graph, &supply_divergences(&graph).expect("target"))
        .expect("no negative cycle");
    assert_eq!(bellman.certificate.total_cost, 0);
}
