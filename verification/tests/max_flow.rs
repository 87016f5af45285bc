use flow::augmenting::{max_flow, shortest_path, ArcNet, KernelError};
use flow::feasibility::FeasibilityError;
use flow::ids::{EdgeId, NodeId};
use flow::max_flow::{
    solve_edmonds_karp, trace_edmonds_karp, EdmondsKarpError, EdmondsKarpResult, EdmondsKarpTraceResult,
};
use flow::model::{FlowNetwork, FlowNode, NodeIndex, UnresolvedFlowEdge};
use flow::trace::{
    apply_trace_event, FlowTraceDirection, FlowTraceEntityRef, FlowTraceMetricId, FlowTracePatch,
    TraceGranularityV1,
};

fn network(edges: &[(&str, &str, &str, u64, u64)]) -> (FlowNetwork, NodeIndex, NodeIndex) {
    let node_ids = ["a", "b", "s", "t"]
        .into_iter()
        .map(|id| NodeId::parse(id).expect("node id"))
        .collect::<Vec<_>>();
    let graph = FlowNetwork::new(
        node_ids.iter().cloned().map(|id| FlowNode::new(id, 0)).collect(),
        edges
            .iter()
            .map(|&(id, from, to, lower, capacity)| UnresolvedFlowEdge {
                id: EdgeId::parse(id).expect("edge id"),
                from: NodeId::parse(from).expect("tail"),
                to: NodeId::parse(to).expect("head"),
                lower,
                capacity,
                cost: 0,
            })
            .collect(),
    )
    .expect("valid graph");
    let source = graph
        .node_index(&NodeId::parse("s").expect("source id"))
        .expect("source");
    let sink = graph
        .node_index(&NodeId::parse("t").expect("sink id"))
        .expect("sink");
    (graph, source, sink)
}

/// Minimum cut capacity by enumerating every node set holding `s` and not `t`.
fn brute_force_min_cut(graph: &FlowNetwork, source: NodeIndex, sink: NodeIndex) -> i128 {
    let n = graph.nodes().len();
    let mut best: Option<i128> = None;
    for mask in 0_u32..(1 << n) {
        let side = |v: usize| mask & (1 << v) != 0;
        if !side(source.as_usize()) || side(sink.as_usize()) {
            continue;
        }
        let mut cut = 0_i128;
        for edge in graph.edges() {
            let (a, b) = (side(edge.from().as_usize()), side(edge.to().as_usize()));
            if a && !b {
                cut += i128::from(edge.capacity());
            } else if !a && b {
                cut -= i128::from(edge.lower());
            }
        }
        best = Some(best.map_or(cut, |value| value.min(cut)));
    }
    best.expect("some cut")
}

#[test]
fn computes_classic_max_flow_and_final_failed_bfs() {
    let (graph, source, sink) = network(&[
        ("sa", "s", "a", 0, 10),
        ("sb", "s", "b", 0, 10),
        ("at", "a", "t", 0, 10),
        ("bt", "b", "t", 0, 10),
        ("ab", "a", "b", 0, 1),
    ]);
    let result = solve_edmonds_karp(&graph, source, sink).expect("maximum flow");

    assert_eq!(result.certificate.value, 20);
    assert_eq!(result.metrics.augmentations, 2);
    assert_eq!(result.metrics.bfs_runs, 3);
}

#[test]
fn preserves_lower_bounds_parallel_edges_opposites_and_self_loops() {
    let (graph, source, sink) = network(&[
        ("lower", "s", "a", 2, 3),
        ("parallel", "s", "a", 0, 4),
        ("out", "a", "t", 2, 7),
        ("opposite", "a", "s", 0, 1),
        ("loop", "a", "a", 1, 5),
    ]);
    let result = solve_edmonds_karp(&graph, source, sink).expect("maximum flow");

    assert_eq!(result.certificate.value, 7);
    assert_eq!(result.certificate.cut_bound, 7);
}

#[test]
fn max_flow_trace_replays_both_directions_and_matches_fast_result() {
    let (graph, source, sink) = network(&[
        ("sa", "s", "a", 0, 5),
        ("sb", "s", "b", 0, 4),
        ("ab", "a", "b", 0, 2),
        ("at", "a", "t", 0, 3),
        ("bt", "b", "t", 0, 6),
    ]);
    let fast = solve_edmonds_karp(&graph, source, sink).expect("fast result");
    let traced = trace_edmonds_karp(&graph, source, sink).expect("trace result");

    assert_eq!(traced.result, fast);
    let source_id = graph.nodes()[source.as_usize()].id().clone();
    let first = traced.events.first().expect("BFS-start event");
    assert_eq!(first.catalog_id, "edmonds-karp.bfs");
    assert_eq!(
        first.entity_refs,
        vec![FlowTraceEntityRef::Node(source_id.clone())]
    );
    let mut bfs_start = traced.base_snapshot.clone();
    apply_trace_event(&graph, &mut bfs_start, first, FlowTraceDirection::Forward)
        .expect("BFS-start event replays");
    assert_eq!(bfs_start.search_order, vec![source_id]);
    assert_eq!(bfs_start.node_labels[source.as_usize()], Some(0));
    assert!(
        traced
            .events
            .iter()
            .any(|event| event.catalog_id == "edmonds-karp.bfs")
    );
    assert!(traced.events.iter().any(|event| {
        event.catalog_id == "edmonds-karp.bfs-complete"
            && event
                .detail
                .as_ref()
                .is_some_and(|detail| detail.label == "reachable" && detail.value > 0)
    }));
    assert!(traced.events.iter().any(|event| {
        event.catalog_id == "edmonds-karp.inspect-residual-arc"
            && event.minimum_granularity == TraceGranularityV1::Micro
            && event.entity_refs.len() >= 2
    }));
    let scan_events = traced
        .events
        .iter()
        .filter(|event| event.catalog_id == "edmonds-karp.inspect-residual-arc")
        .collect::<Vec<_>>();
    assert_eq!(
        u128::try_from(scan_events.len()).expect("scan event count fits u128"),
        traced.result.metrics.residual_arc_scans
    );
    assert!(scan_events.iter().all(|event| {
        event.patches.iter().any(|patch| {
            matches!(
                patch,
                FlowTracePatch::Metric {
                    metric: FlowTraceMetricId::ResidualArcScans,
                    before,
                    after,
                } if after.checked_sub(*before) == Some(1)
            )
        })
    }));
    assert!(traced.events.iter().any(|event| {
        event.catalog_id == "edmonds-karp.reconstruct-path"
            && event.minimum_granularity == TraceGranularityV1::Micro
    }));
    assert!(traced.events.iter().all(|event| {
        event.catalog_id != "edmonds-karp.bfs-complete"
            || event.minimum_granularity == TraceGranularityV1::Phase
    }));
    assert!(traced.events.iter().any(|event| {
        event.catalog_id == "edmonds-karp.bottleneck"
            && event.minimum_granularity == TraceGranularityV1::Micro
            && event
                .detail
                .as_ref()
                .is_some_and(|detail| detail.label == "bottleneck" && detail.value > 0)
    }));
    assert!(traced.events.iter().all(|event| {
        event.minimum_granularity != TraceGranularityV1::Operation
            || event.catalog_id == "edmonds-karp.augment"
    }));
    let bottleneck_index = traced
        .events
        .iter()
        .position(|event| event.catalog_id == "edmonds-karp.bottleneck")
        .expect("precommit bottleneck event");
    let augment_index = traced
        .events
        .iter()
        .position(|event| event.catalog_id == "edmonds-karp.augment")
        .expect("commit event");
    assert!(bottleneck_index < augment_index);
    assert!(
        traced.events[bottleneck_index]
            .patches
            .iter()
            .all(|patch| !matches!(patch, FlowTracePatch::EdgeFlow { .. }))
    );
    assert!(
        traced
            .events
            .iter()
            .any(|event| event.catalog_id == "edmonds-karp.augment")
    );

    assert_trace_replay(&graph, sink, &traced, &fast);
}

fn assert_trace_replay(
    graph: &FlowNetwork,
    sink: NodeIndex,
    traced: &EdmondsKarpTraceResult,
    fast: &EdmondsKarpResult,
) {
    let mut replay = traced.base_snapshot.clone();
    for event in &traced.events {
        apply_trace_event(graph, &mut replay, event, FlowTraceDirection::Forward)
            .expect("forward event");
        if event.catalog_id == "edmonds-karp.augment" {
            assert_eq!(
                replay.node_labels[sink.as_usize()],
                Some(replay.active_path.len() as i128)
            );
        }
    }
    assert_eq!(replay, traced.final_snapshot);
    assert_eq!(replay.flows, fast.flows);
    for event in traced.events.iter().rev() {
        apply_trace_event(graph, &mut replay, event, FlowTraceDirection::Reverse)
            .expect("reverse event");
    }
    assert_eq!(replay, traced.base_snapshot);
}

#[test]
fn stable_bfs_ties_ignore_declaration_order() {
    let edges = [
        ("sa", "s", "a", 0, 5),
        ("sb", "s", "b", 0, 5),
        ("at", "a", "t", 0, 5),
        ("bt", "b", "t", 0, 5),
        ("ab", "a", "b", 0, 1),
    ];
    let mut reversed = edges;
    reversed.reverse();
    let (left, left_source, left_sink) = network(&edges);
    let (right, right_source, right_sink) = network(&reversed);
    let left = trace_edmonds_karp(&left, left_source, left_sink).expect("left trace");
    let right = trace_edmonds_karp(&right, right_source, right_sink).expect("right trace");

    assert_eq!(left.result, right.result);
    assert_eq!(left.events, right.events);
    assert_eq!(left.final_snapshot, right.final_snapshot);
}

#[test]
fn bounded_cyclic_capacity_family_matches_dinic() {
    for mask in 0_u64..64 {
        let capacity = |shift: u32| 1 + ((mask >> shift) & 3);
        let (graph, source, sink) = network(&[
            ("sa", "s", "a", 0, capacity(0)),
            ("sb", "s", "b", 0, capacity(1)),
            ("ab", "a", "b", 0, capacity(2)),
            ("ba", "b", "a", 0, capacity(3)),
            ("at", "a", "t", 0, capacity(4)),
            ("bt", "b", "t", 0, capacity(5)),
        ]);
        let expected = brute_force_min_cut(&graph, source, sink);
        let actual = solve_edmonds_karp(&graph, source, sink).expect("Edmonds-Karp");
        assert_eq!(actual.certificate.value, expected, "mask={mask}");
        assert_eq!(actual.certificate.cut_bound, expected, "mask={mask}");
        assert_eq!(actual.metrics.bfs_runs, actual.metrics.augmentations + 1);
    }
}

#[test]
fn bottleneck_is_the_least_room_and_augment_pushes_it() {
    let mut net = ArcNet::empty(3);
    net.add_edge(0, 1, 0, 5, 0);
    net.add_edge(1, 2, 1, 3, 0);
    let mut flows = vec![2u64, 1u64];
    let path = vec![(0usize, true), (1usize, true)];
    assert_eq!(net.bottleneck(&flows, &path), Some(2));
    let back = vec![(1usize, false)];
    assert_eq!(net.bottleneck(&flows, &back), Some(0));
    assert_eq!(net.bottleneck(&flows, &Vec::new()), None);
    assert!(net.augment(&mut flows, &path, 2).is_ok());
    assert_eq!(flows, vec![4, 3]);
}

#[test]
fn identities_keep_their_text_through_copies() {
    let id = NodeId::parse("node-1.a:b_c").expect("node id");
    assert_eq!(id.as_str(), "node-1.a:b_c");
    let copy = id.clone();
    assert_eq!(copy.as_str(), "node-1.a:b_c");
    assert_eq!(copy, id);
    let edge = EdgeId::parse("e").expect("edge id");
    assert_eq!(edge.clone().as_str(), "e");
    assert!(NodeId::parse("no spaces").is_err());
}

#[test]
fn breadth_first_search_records_least_arc_counts() {
    let mut net = ArcNet::empty(5);
    net.add_edge(0, 1, 0, 1, 0);
    net.add_edge(1, 2, 0, 1, 0);
    net.add_edge(2, 4, 0, 1, 0);
    net.add_edge(0, 3, 0, 1, 0);
    net.add_edge(3, 4, 0, 1, 0);
    net.add_edge(1, 3, 0, 0, 0);
    let flows = vec![0u64; 6];
    let mut scans: u128 = 0;
    let mut steps = None;
    let search = shortest_path(&net, &flows, 0, 4, &mut scans, 1000, &mut steps).expect("search");
    assert_eq!(search.path, Some(vec![(3, true), (4, true)]));
    assert_eq!(search.order[0], 0);
    assert_eq!(search.distances, vec![Some(0), Some(1), Some(2), Some(1), Some(2)]);
}

#[test]
fn augmentation_ceiling_stops_while_a_path_remains() {
    let mut net = ArcNet::empty(2);
    net.add_edge(0, 1, 0, 3, 0);
    let mut flows = vec![0u64];
    let mut scans: u128 = 0;
    assert_eq!(max_flow(&net, &mut flows, 0, 1, 0, 100, &mut scans), Err(KernelError::WorkLimit));
    assert_eq!(flows, vec![0]);
    let mut scans: u128 = 0;
    assert_eq!(max_flow(&net, &mut flows, 0, 1, 0, 0, &mut scans), Err(KernelError::WorkLimit));
    assert_eq!(scans, 0);
    let mut scans: u128 = 0;
    assert_eq!(max_flow(&net, &mut flows, 0, 1, 5, 100, &mut scans), Ok(1));
    assert_eq!(flows, vec![3]);
    assert!(scans > 0);
}

#[test]
fn unsatisfiable_lower_bounds_are_refuted() {
    let (graph, source, sink) = network(&[("sa", "s", "a", 2, 3), ("at", "a", "t", 0, 1)]);
    assert_eq!(
        solve_edmonds_karp(&graph, source, sink).err(),
        Some(EdmondsKarpError::Feasibility(FeasibilityError::Infeasible))
    );
    let (graph, source, sink) = network(&[("sa", "s", "a", 1, 3), ("at", "a", "t", 0, 1)]);
    let result = solve_edmonds_karp(&graph, source, sink).expect("feasible");
    assert_eq!(result.certificate.value, 1);
}
