use flow::ids::{EdgeId, NodeId};
use flow::model::{FlowNetwork, FlowNode, UnresolvedFlowEdge};
use flow::trace::{
    apply_trace_event, diff, FlowTraceDirection, FlowTraceError, FlowTraceEvent, FlowTraceMetricId,
    FlowTraceMetrics, FlowTracePatch, FlowTraceSnapshot, TraceGranularityV1,
};

fn line() -> FlowNetwork {
    let nodes = ["s", "t"]
        .into_iter()
        .map(|id| FlowNode::new(NodeId::parse(id).expect("node"), 0))
        .collect::<Vec<_>>();
    let edges = vec![UnresolvedFlowEdge {
        id: EdgeId::parse("e").expect("edge"),
        from: NodeId::parse("s").expect("from"),
        to: NodeId::parse("t").expect("to"),
        lower: 0,
        capacity: 4,
        cost: 0,
    }];
    FlowNetwork::new(nodes, edges).expect("graph")
}

fn snapshot(flow: u64, label: Option<i128>, order: &[&str], runs: u128) -> FlowTraceSnapshot {
    FlowTraceSnapshot {
        flows: vec![flow],
        node_labels: vec![label, None],
        search_order: order.iter().map(|id| NodeId::parse(id).expect("node")).collect(),
        active_path: Vec::new(),
        remaining_divergence: vec![1, -1],
        metrics: FlowTraceMetrics { bfs_runs: runs, ..FlowTraceMetrics::default() },
    }
}

fn event(patches: Vec<FlowTracePatch>) -> FlowTraceEvent {
    FlowTraceEvent {
        catalog_id: "test.step".to_string(),
        minimum_granularity: TraceGranularityV1::Operation,
        pseudocode_line: "test:step".to_string(),
        detail: None,
        entity_refs: Vec::new(),
        patches,
    }
}

#[test]
fn diff_replays_forward_and_reverse_restores() {
    let graph = line();
    let before = snapshot(0, None, &[], 0);
    let after = snapshot(3, Some(0), &["s"], 1);
    let patches = diff(&before, &after).expect("same shape");
    assert_eq!(patches.len(), 4);
    assert_eq!(patches[0], FlowTracePatch::EdgeFlow { edge: 0, before: 0, after: 3 });
    assert_eq!(
        patches[3],
        FlowTracePatch::Metric { metric: FlowTraceMetricId::BfsRuns, before: 0, after: 1 }
    );
    let step = event(patches);
    let mut replay = before.clone();
    apply_trace_event(&graph, &mut replay, &step, FlowTraceDirection::Forward).expect("forward");
    assert_eq!(replay, after);
    apply_trace_event(&graph, &mut replay, &step, FlowTraceDirection::Reverse).expect("reverse");
    assert_eq!(replay, before);
}

#[test]
fn replay_rejects_a_mismatched_start_and_a_wrong_shape() {
    let graph = line();
    let before = snapshot(0, None, &[], 0);
    let after = snapshot(3, None, &[], 0);
    let step = event(diff(&before, &after).expect("same shape"));
    let mut elsewhere = snapshot(1, None, &[], 0);
    assert_eq!(
        apply_trace_event(&graph, &mut elsewhere, &step, FlowTraceDirection::Forward),
        Err(FlowTraceError::Mismatch)
    );
    let mut wrong_shape = FlowTraceSnapshot { flows: vec![0, 0], ..before.clone() };
    assert_eq!(
        apply_trace_event(&graph, &mut wrong_shape, &step, FlowTraceDirection::Forward),
        Err(FlowTraceError::Shape)
    );
    assert_eq!(diff(&before, &wrong_shape), Err(FlowTraceError::Shape));
}
