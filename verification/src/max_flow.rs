//! Edmonds–Karp maximum flow over canonical residual arcs.
use vstd::prelude::*;

use crate::augmenting::{
    lemma_max_listed_bounds, max_listed, lemma_net_div_is_divergence, lemma_side_closed_is_residually_closed, lemma_walk_balance, mirrors,
    first_least_room, net_div, room_of, shortest_path, side_closed, walk_balance, ArcNet, KernelError, ScanStep, Search,
};
use crate::certificate::{check_max_flow, CertificateError, MaxFlowCertificate};
use crate::feasibility::{FeasibilityError, FeasibilityExecution, FeasibilityUse};
use crate::flows::{
    contribution, conserves_except, cut_capacity, div_prefix, divergence, feasible_st_flow, flow_value, ints, is_maximum_flow,
    is_st_cut, within_bounds,
};
use crate::residual::{forced, residually_closed};
use crate::model::{FlowEdge, FlowNetwork, NodeIndex};
use crate::trace::{recorded_state, replayable, trace_replays, trace_view, 
    node_entity_ref, residual_arc_entity_refs, residual_path_node_order, FlowTraceError,
    FlowTraceEvent, FlowTraceEventMetadata, FlowTraceMetrics, FlowTraceRecorder, FlowTraceSnapshot,
    TraceGranularityV1,
};

verus! {

/// Conservative interactive admission limit for Edmonds–Karp.
pub const EDMONDS_KARP_MAX_NODES: usize = 2_000;
/// Conservative interactive edge admission limit for Edmonds–Karp.
pub const EDMONDS_KARP_MAX_EDGES: usize = 20_000;
/// Hard ceiling for positive residual-arc inspections in one interactive run.
pub const EDMONDS_KARP_MAX_RESIDUAL_ARC_SCANS: u128 = 10_000_000;
/// Hard ceiling for successful augmentations in one interactive run.
pub const EDMONDS_KARP_MAX_AUGMENTATIONS: u64 = 10_000;

/// Exact operation counts from the deterministic kernel.
#[derive(Clone, Copy, Debug, Default, Eq, PartialEq)]
pub struct EdmondsKarpMetrics {
    /// BFS invocations, including the final unsuccessful search.
    pub bfs_runs: u64,
    /// Positive residual arcs inspected by BFS.
    pub residual_arc_scans: u128,
    /// Successful path augmentations.
    pub augmentations: u64,
}

/// Certified canonical maximum-flow result.
#[derive(Clone, Debug, Eq, PartialEq)]
pub struct EdmondsKarpResult {
    /// Original-edge flows in canonical edge-ID order.
    pub flows: Vec<u64>,
    /// Independently reconstructed max-flow/min-cut certificate.
    pub certificate: MaxFlowCertificate,
    /// Deterministic kernel counters.
    pub metrics: EdmondsKarpMetrics,
}

/// Certified Edmonds–Karp result with a complete reversible event sequence.
#[derive(Clone, Debug, Eq, PartialEq)]
pub struct EdmondsKarpTraceResult {
    /// Same canonical result produced by the fast profile.
    pub result: EdmondsKarpResult,
    /// Replay boundary before the first BFS phase.
    pub base_snapshot: FlowTraceSnapshot,
    /// Canonical reversible event sequence.
    pub events: Vec<FlowTraceEvent>,
    /// Replay boundary after the verified optimal phase.
    pub final_snapshot: FlowTraceSnapshot,
}

/// Edmonds–Karp construction or verification failure.
#[derive(Clone, Copy, Debug, Eq, PartialEq)]
pub enum EdmondsKarpError {
    /// Input exceeds the practical admission band for this algorithm.
    AdmissionLimit,
    /// A deterministic execution work ceiling was reached.
    WorkLimit,
    /// Lower-bound feasible flow construction failed.
    Feasibility(FeasibilityError),
    /// Final solver-independent certificate rejected the result.
    Certificate(CertificateError),
    /// Exact operation counters exceeded their declared domain.
    MetricOverflow,
    /// A predecessor chain contradicted BFS reachability.
    PredecessorInvariant,
    /// Reversible trace construction contradicted algorithm state.
    Trace(FlowTraceError),
}

/// What a successful run certifies.
pub open spec fn certified_max_flow(g: FlowNetwork, source: NodeIndex, sink: NodeIndex, res: EdmondsKarpResult) -> bool {
    &&& is_maximum_flow(g, ints(res.flows@), source@ as int, sink@ as int)
    &&& res.certificate.value == flow_value(g, ints(res.flows@), source@ as int)
    &&& is_st_cut(g, res.certificate.source_side@, source@ as int, sink@ as int)
    &&& res.certificate.cut_bound == cut_capacity(g, res.certificate.source_side@)
    &&& res.certificate.value == res.certificate.cut_bound
    &&& res.certificate.source_side@.len() == g.n()
    &&& forall|v: int| 0 <= v < g.n() ==> (#[trigger] res.certificate.source_side@[v] <==> forced(g, ints(res.flows@), source@ as int, v))
    &&& res.metrics.bfs_runs == res.metrics.augmentations + 1
    &&& res.metrics.augmentations <= EDMONDS_KARP_MAX_AUGMENTATIONS
    &&& res.metrics.residual_arc_scans <= EDMONDS_KARP_MAX_RESIDUAL_ARC_SCANS
}

/// Room between the bounds of `e` when exactly one of its ends is `s`.
pub open spec fn slack_term(e: FlowEdge, s: int) -> int {
    if (e.from@ == s) != (e.to@ == s) { e.capacity - e.lower } else { 0 }
}

/// Least possible contribution of `e` to the net outflow of `s`.
pub open spec fn floor_term(e: FlowEdge, s: int) -> int {
    if e.from@ == s && e.to@ != s {
        e.lower as int
    } else if e.to@ == s && e.from@ != s {
        -(e.capacity as int)
    } else {
        0
    }
}

/// Sum of `slack_term` over the first `k` edges.
pub open spec fn slack_prefix(edges: Seq<FlowEdge>, s: int, k: int) -> int
    decreases k,
{
    if k <= 0 { 0 } else { slack_prefix(edges, s, k - 1) + slack_term(edges[k - 1], s) }
}

/// Sum of `floor_term` over the first `k` edges.
pub open spec fn floor_prefix(edges: Seq<FlowEdge>, s: int, k: int) -> int
    decreases k,
{
    if k <= 0 { 0 } else { floor_prefix(edges, s, k - 1) + floor_term(edges[k - 1], s) }
}

/// Total room of the edges with exactly one end at `s`: how far the net
/// outflow of `s` can range over all bounded flows.
pub open spec fn source_slack(g: FlowNetwork, s: int) -> int {
    slack_prefix(g.edge_seq(), s, g.m() as int)
}

/// Least net outflow of `s` over all bounded flows.
pub open spec fn source_floor(g: FlowNetwork, s: int) -> int {
    floor_prefix(g.edge_seq(), s, g.m() as int)
}

proof fn lemma_outflow_window_prefix(g: FlowNetwork, f: Seq<int>, s: int, k: int)
    requires
        within_bounds(g, f),
        0 <= k <= g.m(),
    ensures
        floor_prefix(g.edge_seq(), s, k) <= div_prefix(g.edge_seq(), f, s, k)
            <= floor_prefix(g.edge_seq(), s, k) + slack_prefix(g.edge_seq(), s, k),
    decreases k,
{
    if k > 0 {
        lemma_outflow_window_prefix(g, f, s, k - 1);
        let e = g.edge_seq()[k - 1];
        assert(e.lower <= f[k - 1] <= e.capacity);
        assert(floor_term(e, s) <= contribution(e, f[k - 1], s) <= floor_term(e, s) + slack_term(e, s));
    }
}

/// The net outflow of `s` under any bounded flow lies between its floor and
/// the floor plus the slack of the edges at `s`.
pub proof fn lemma_outflow_window(g: FlowNetwork, f: Seq<int>, s: int)
    requires
        within_bounds(g, f),
    ensures
        source_floor(g, s) <= divergence(g, f, s) <= source_floor(g, s) + source_slack(g, s),
{
    lemma_outflow_window_prefix(g, f, s, g.m() as int);
}

proof fn lemma_mirror_bounds(net: &ArcNet, g: FlowNetwork, flows: Seq<u64>)
    requires
        mirrors(net, g),
        net.bounded(flows),
    ensures
        within_bounds(g, ints(flows)),
{
    assert forall|k: int| 0 <= k < g.m() implies g.edge_seq()[k].lower <= #[trigger] ints(flows)[k] <= g.edge_seq()[k].capacity by {
        assert(ints(flows)[k] == flows[k]);
        assert(net.lower@[k] <= flows[k] <= net.cap@[k]);
    }
}

/// Edmonds–Karp cannot reach its work ceilings on `g` from `s`: each
/// augmentation raises the flow out of `s` by at least one unit, so fewer
/// augmentations are possible than the augmentation ceiling, and one
/// breadth-first search per augmentation, plus the last, scanning every
/// listed arc of every node at most once, stays below the scan ceiling.
pub open spec fn within_work_ceilings(g: FlowNetwork, s: int) -> bool {
    &&& source_slack(g, s) < EDMONDS_KARP_MAX_AUGMENTATIONS
    &&& (source_slack(g, s) + 1) * (g.n() * (2 * g.m())) < EDMONDS_KARP_MAX_RESIDUAL_ARC_SCANS
}

/// The input lies outside the admission band.
pub open spec fn over_admission(g: FlowNetwork) -> bool {
    g.n() > EDMONDS_KARP_MAX_NODES || g.m() > EDMONDS_KARP_MAX_EDGES
}

/// The terminals are distinct nodes of the network.
pub open spec fn valid_terminals(g: FlowNetwork, source: NodeIndex, sink: NodeIndex) -> bool {
    source@ < g.n() && sink@ < g.n() && source@ != sink@
}

/// Solves lower-bounded single-source/sink maximum flow with stable BFS ties.
pub fn solve_edmonds_karp(graph: &FlowNetwork, source: NodeIndex, sink: NodeIndex) -> (r: Result<EdmondsKarpResult, EdmondsKarpError>)
    ensures
        r matches Ok(res) ==> certified_max_flow(*graph, source, sink, res),
        r matches Ok(res) ==> res.metrics.augmentations <= source_slack(*graph, source@ as int),
        within_work_ceilings(*graph, source@ as int) ==> !(r matches Err(EdmondsKarpError::WorkLimit)),
        r == Err::<EdmondsKarpResult, EdmondsKarpError>(EdmondsKarpError::AdmissionLimit) <==> over_admission(*graph),
        r == Err::<EdmondsKarpResult, EdmondsKarpError>(EdmondsKarpError::Feasibility(FeasibilityError::InvalidTerminal))
            <==> !over_admission(*graph) && !valid_terminals(*graph, source, sink),
        r == Err::<EdmondsKarpResult, EdmondsKarpError>(EdmondsKarpError::Feasibility(FeasibilityError::Infeasible)) ==> forall|f: Seq<int>|
            #[trigger] feasible_st_flow(*graph, f, source@ as int, sink@ as int) ==> flow_value(*graph, f, source@ as int) < 0,
        !(r matches Err(EdmondsKarpError::Certificate(_))),
        !(r matches Err(EdmondsKarpError::PredecessorInvariant)),
{
    let mut feasibility = FeasibilityExecution::untracked();
    solve_edmonds_karp_with_feasibility(graph, source, sink, &mut feasibility)
}

/// Solves Edmonds–Karp while publishing auxiliary feasibility work to the
/// enclosing execution.
pub fn solve_edmonds_karp_with_feasibility(
    graph: &FlowNetwork,
    source: NodeIndex,
    sink: NodeIndex,
    feasibility: &mut FeasibilityExecution,
) -> (r: Result<EdmondsKarpResult, EdmondsKarpError>)
    ensures
        r matches Err(e) ==> (e is AdmissionLimit ==> *final(feasibility) == *old(feasibility)),
        r matches Ok(res) ==> certified_max_flow(*graph, source, sink, res),
        r matches Ok(res) ==> res.metrics.augmentations <= source_slack(*graph, source@ as int),
        within_work_ceilings(*graph, source@ as int) ==> !(r matches Err(EdmondsKarpError::WorkLimit)),
        r == Err::<EdmondsKarpResult, EdmondsKarpError>(EdmondsKarpError::AdmissionLimit) <==> over_admission(*graph),
        r == Err::<EdmondsKarpResult, EdmondsKarpError>(EdmondsKarpError::Feasibility(FeasibilityError::InvalidTerminal))
            <==> !over_admission(*graph) && !valid_terminals(*graph, source, sink),
        r == Err::<EdmondsKarpResult, EdmondsKarpError>(EdmondsKarpError::Feasibility(FeasibilityError::Infeasible)) ==> forall|f: Seq<int>|
            #[trigger] feasible_st_flow(*graph, f, source@ as int, sink@ as int) ==> flow_value(*graph, f, source@ as int) < 0,
        !(r matches Err(EdmondsKarpError::Certificate(_))),
        !(r matches Err(EdmondsKarpError::PredecessorInvariant)),
{
    match solve_edmonds_karp_internal(graph, source, sink, false, feasibility) {
        Ok(run) => Ok(run.0),
        Err(e) => Err(e),
    }
}

/// Solves Edmonds–Karp while recording every phase and augmentation.
pub fn trace_edmonds_karp(graph: &FlowNetwork, source: NodeIndex, sink: NodeIndex) -> (r: Result<EdmondsKarpTraceResult, EdmondsKarpError>)
    ensures
        r matches Ok(res) ==> certified_max_flow(*graph, source, sink, res.result),
        r matches Ok(res) ==> res.result.metrics.augmentations <= source_slack(*graph, source@ as int),
        within_work_ceilings(*graph, source@ as int) ==> !(r matches Err(EdmondsKarpError::WorkLimit)),
        r matches Ok(res) ==> trace_replays(trace_view(res.base_snapshot), res.events@, trace_view(res.final_snapshot)),
        r == Err::<EdmondsKarpTraceResult, EdmondsKarpError>(EdmondsKarpError::AdmissionLimit) <==> over_admission(*graph),
        r == Err::<EdmondsKarpTraceResult, EdmondsKarpError>(EdmondsKarpError::Feasibility(FeasibilityError::InvalidTerminal))
            <==> !over_admission(*graph) && !valid_terminals(*graph, source, sink),
        r == Err::<EdmondsKarpTraceResult, EdmondsKarpError>(EdmondsKarpError::Feasibility(FeasibilityError::Infeasible)) ==> forall|f: Seq<int>|
            #[trigger] feasible_st_flow(*graph, f, source@ as int, sink@ as int) ==> flow_value(*graph, f, source@ as int) < 0,
        !(r matches Err(EdmondsKarpError::Certificate(_))),
        !(r matches Err(EdmondsKarpError::PredecessorInvariant)),
{
    let mut feasibility = FeasibilityExecution::untracked();
    trace_edmonds_karp_with_feasibility(graph, source, sink, &mut feasibility)
}

/// Traces Edmonds–Karp while publishing auxiliary feasibility work to the
/// enclosing execution.
pub fn trace_edmonds_karp_with_feasibility(
    graph: &FlowNetwork,
    source: NodeIndex,
    sink: NodeIndex,
    feasibility: &mut FeasibilityExecution,
) -> (r: Result<EdmondsKarpTraceResult, EdmondsKarpError>)
    ensures
        r matches Err(e) ==> (e is AdmissionLimit ==> *final(feasibility) == *old(feasibility)),
        r matches Ok(res) ==> certified_max_flow(*graph, source, sink, res.result),
        r matches Ok(res) ==> res.result.metrics.augmentations <= source_slack(*graph, source@ as int),
        within_work_ceilings(*graph, source@ as int) ==> !(r matches Err(EdmondsKarpError::WorkLimit)),
        r matches Ok(res) ==> trace_replays(trace_view(res.base_snapshot), res.events@, trace_view(res.final_snapshot)),
        r == Err::<EdmondsKarpTraceResult, EdmondsKarpError>(EdmondsKarpError::AdmissionLimit) <==> over_admission(*graph),
        r == Err::<EdmondsKarpTraceResult, EdmondsKarpError>(EdmondsKarpError::Feasibility(FeasibilityError::InvalidTerminal))
            <==> !over_admission(*graph) && !valid_terminals(*graph, source, sink),
        r == Err::<EdmondsKarpTraceResult, EdmondsKarpError>(EdmondsKarpError::Feasibility(FeasibilityError::Infeasible)) ==> forall|f: Seq<int>|
            #[trigger] feasible_st_flow(*graph, f, source@ as int, sink@ as int) ==> flow_value(*graph, f, source@ as int) < 0,
        !(r matches Err(EdmondsKarpError::Certificate(_))),
        !(r matches Err(EdmondsKarpError::PredecessorInvariant)),
{
    let run = solve_edmonds_karp_internal(graph, source, sink, true, feasibility)?;
    match run.1 {
        Some((base_snapshot, events, final_snapshot)) => Ok(EdmondsKarpTraceResult { result: run.0, base_snapshot, events, final_snapshot }),
        None => Err(EdmondsKarpError::PredecessorInvariant),
    }
}

fn kernel_error(e: KernelError) -> (r: EdmondsKarpError)
    ensures
        r != EdmondsKarpError::AdmissionLimit,
        !(r is Feasibility),
        !(r is Certificate),
        (r == EdmondsKarpError::PredecessorInvariant) <==> (e == KernelError::PredecessorInvariant),
{
    match e {
        KernelError::WorkLimit => EdmondsKarpError::WorkLimit,
        KernelError::MetricOverflow => EdmondsKarpError::MetricOverflow,
        KernelError::PredecessorInvariant => EdmondsKarpError::PredecessorInvariant,
    }
}

fn trace_error(e: FlowTraceError) -> (r: EdmondsKarpError)
    ensures
        r != EdmondsKarpError::AdmissionLimit,
        r != EdmondsKarpError::Feasibility(FeasibilityError::InvalidTerminal),
        r == EdmondsKarpError::Trace(e),
{
    EdmondsKarpError::Trace(e)
}

/// The shared trace counters that the kernel counters project to.
pub open spec fn projected_metrics(metrics: EdmondsKarpMetrics) -> FlowTraceMetrics {
FlowTraceMetrics {
    bfs_runs: metrics.bfs_runs as u128,
    relaxation_passes: 0,
    residual_arc_scans: metrics.residual_arc_scans,
    augmentations: metrics.augmentations as u128,
    path_searches: 0,
    scaling_phases: 0,
    blocking_flow_phases: 0,
    relabels: 0,
    retreats: 0,
    reverse_bfs_runs: 0,
    gap_terminations: 0,
    pushes: 0,
    saturating_pushes: 0,
    nonsaturating_pushes: 0,
    discharges: 0,
    active_vertex_selections: 0,
}
}

/// The projection of the kernel counters onto the shared trace counters.
pub fn trace_metrics(metrics: EdmondsKarpMetrics) -> (r: FlowTraceMetrics)
    ensures
        r.bfs_runs == metrics.bfs_runs,
        r.residual_arc_scans == metrics.residual_arc_scans,
        r.augmentations == metrics.augmentations,
        r == projected_metrics(metrics),
{
    FlowTraceMetrics {
        bfs_runs: metrics.bfs_runs as u128,
        relaxation_passes: 0,
        residual_arc_scans: metrics.residual_arc_scans,
        augmentations: metrics.augmentations as u128,
        path_searches: 0,
        scaling_phases: 0,
        blocking_flow_phases: 0,
        relabels: 0,
        retreats: 0,
        reverse_bfs_runs: 0,
        gap_terminations: 0,
        pushes: 0,
        saturating_pushes: 0,
        nonsaturating_pushes: 0,
        discharges: 0,
        active_vertex_selections: 0,
    }
}

fn none_labels(n: usize) -> (r: Vec<Option<i128>>)
    ensures
        r@.len() == n,
        forall|i: int| 0 <= i < n ==> (#[trigger] r@[i]) is None,
{
    let mut d: Vec<Option<i128>> = Vec::new();
    let mut v: usize = 0;
    while v < n
        invariant
            v <= n,
            d@.len() == v,
            forall|i: int| 0 <= i < v ==> (#[trigger] d@[i]) is None,
        decreases n - v,
    {
        d.push(None);
        v = v + 1;
    }
    d
}

/// Records one event when a recorder is present.
fn record(
    recorder: &mut Option<FlowTraceRecorder>,
    graph: &FlowNetwork,
    flows: &Vec<u64>,
    metrics: EdmondsKarpMetrics,
    metadata: FlowTraceEventMetadata,
    distances: Vec<Option<i128>>,
    order: &Vec<usize>,
    path: &Vec<(usize, bool)>,
    focus_arcs: &Vec<(usize, bool)>,
    focus_node: Option<usize>,
    detail: Option<(&'static str, i128)>,
) -> (r: Result<(), FlowTraceError>)
    ensures
        (*old(recorder)) is None ==> r is Ok && (*final(recorder)) is None,
        (*old(recorder)) matches Some(before) ==> (*final(recorder)) matches Some(after)
            && recorded_state(before, after, r, flows@, distances@, Seq::empty(), projected_metrics(metrics)),
{
    let rec = match recorder {
        Some(rec) => rec,
        None => return Ok(()),
    };
    let shown_order = if path.len() == 0 {
        clone_usizes(order)
    } else {
        residual_path_node_order(graph, path)?
    };
    let snapshot = FlowTraceSnapshot::capture(graph, flows, distances, &shown_order, path, Vec::new(), trace_metrics(metrics))?;
    let mut focus = residual_arc_entity_refs(graph, focus_arcs)?;
    match focus_node {
        Some(v) => focus.push(node_entity_ref(graph, v)?),
        None => {},
    }
    rec.record_transition_with_detail_and_focus(metadata, &snapshot, detail, focus)
}

/// A copy of a list of positions.
pub fn clone_usizes(v: &Vec<usize>) -> (r: Vec<usize>)
    ensures
        r@ == v@,
{
    let mut r: Vec<usize> = Vec::new();
    let mut i: usize = 0;
    while i < v.len()
        invariant
            i <= v@.len(),
            r@ == v@.take(i as int),
        decreases v@.len() - i,
    {
        r.push(v[i]);
        proof {
            assert(v@.take(i + 1) =~= v@.take(i as int).push(v@[i as int]));
        }
        i = i + 1;
    }
    proof {
        assert(v@.take(i as int) =~= v@);
    }
    r
}

/// A copy of a list of arcs.
pub fn clone_arcs(v: &Vec<(usize, bool)>) -> (r: Vec<(usize, bool)>)
    ensures
        r@ == v@,
{
    let mut r: Vec<(usize, bool)> = Vec::new();
    let mut i: usize = 0;
    while i < v.len()
        invariant
            i <= v@.len(),
            r@ == v@.take(i as int),
        decreases v@.len() - i,
    {
        r.push(v[i]);
        proof {
            assert(v@.take(i + 1) =~= v@.take(i as int).push(v@[i as int]));
        }
        i = i + 1;
    }
    proof {
        assert(v@.take(i as int) =~= v@);
    }
    r
}

/// A copy of a list of labels.
pub fn clone_labels(v: &Vec<Option<i128>>) -> (r: Vec<Option<i128>>)
    ensures
        r@ == v@,
{
    let mut r: Vec<Option<i128>> = Vec::new();
    let mut i: usize = 0;
    while i < v.len()
        invariant
            i <= v@.len(),
            r@ == v@.take(i as int),
        decreases v@.len() - i,
    {
        r.push(v[i]);
        proof {
            assert(v@.take(i + 1) =~= v@.take(i as int).push(v@[i as int]));
        }
        i = i + 1;
    }
    proof {
        assert(v@.take(i as int) =~= v@);
    }
    r
}

fn bottleneck_arc(net: &ArcNet, flows: &Vec<u64>, path: &Vec<(usize, bool)>) -> (r: Vec<(usize, bool)>)
    requires
        net.wf(),
        net.bounded(flows@),
        forall|i: int| 0 <= i < path@.len() ==> (#[trigger] path@[i]).0 < net.m(),
    ensures
        path@.len() == 0 ==> r@.len() == 0,
        path@.len() > 0 ==> exists|k: int| #![trigger path@[k]] 0 <= k < path@.len() && r@ == seq![path@[k]] && first_least_room(net, flows@, path@, k),
{
    let mut out: Vec<(usize, bool)> = Vec::new();
    if path.len() == 0 {
        return out;
    }
    let mut best = 0usize;
    let mut best_cap = net.residual(flows, path[0]);
    let mut i: usize = 1;
    while i < path.len()
        invariant
            net.wf(),
            net.bounded(flows@),
            forall|j: int| 0 <= j < path@.len() ==> (#[trigger] path@[j]).0 < net.m(),
            1 <= i <= path@.len(),
            best < i,
            best_cap == room_of(net, flows@, path@[best as int]),
            forall|j: int| 0 <= j < i ==> best_cap <= room_of(net, flows@, #[trigger] path@[j]),
            forall|j: int| 0 <= j < best ==> best_cap < room_of(net, flows@, #[trigger] path@[j]),
        decreases path@.len() - i,
    {
        let c = net.residual(flows, path[i]);
        if c < best_cap {
            best = i;
            best_cap = c;
        }
        i = i + 1;
    }
    out.push(path[best]);
    proof {
        assert(out@ =~= seq![path@[best as int]]);
    }
    out
}

fn last_arc(path: &Vec<(usize, bool)>) -> (r: Vec<(usize, bool)>)
    ensures
        r@ == (if path@.len() == 0 { Seq::<(usize, bool)>::empty() } else { seq![path@.last()] }),
{
    let mut out: Vec<(usize, bool)> = Vec::new();
    if path.len() > 0 {
        out.push(path[path.len() - 1]);
    }
    out
}

fn prefix(path: &Vec<(usize, bool)>, len: usize) -> (r: Vec<(usize, bool)>)
    requires
        len <= path@.len(),
    ensures
        r@ == path@.take(len as int),
{
    let mut out: Vec<(usize, bool)> = Vec::new();
    let mut i: usize = 0;
    while i < len
        invariant
            i <= len,
            len <= path@.len(),
            out@ == path@.take(i as int),
        decreases len - i,
    {
        out.push(path[i]);
        proof {
            assert(path@.take(i + 1) =~= path@.take(i as int).push(path@[i as int]));
        }
        i = i + 1;
    }
    out
}

fn metadata(catalog_id: &'static str, minimum_granularity: TraceGranularityV1, pseudocode_line: &'static str) -> (r: FlowTraceEventMetadata)
    ensures
        r.catalog_id == catalog_id,
        r.minimum_granularity == minimum_granularity,
        r.pseudocode_line == pseudocode_line,
{
    FlowTraceEventMetadata { catalog_id, minimum_granularity, pseudocode_line }
}

/// The traced boundaries of one run.
pub type TraceParts = (FlowTraceSnapshot, Vec<FlowTraceEvent>, FlowTraceSnapshot);

fn solve_edmonds_karp_internal(
    graph: &FlowNetwork,
    source: NodeIndex,
    sink: NodeIndex,
    record_trace: bool,
    feasibility: &mut FeasibilityExecution,
) -> (r: Result<(EdmondsKarpResult, Option<TraceParts>), EdmondsKarpError>)
    ensures
        r matches Err(e) ==> (e is AdmissionLimit ==> *final(feasibility) == *old(feasibility)),
        r matches Ok(run) ==> run.0.metrics.augmentations <= source_slack(*graph, source@ as int),
        within_work_ceilings(*graph, source@ as int)
            ==> r != Err::<(EdmondsKarpResult, Option<TraceParts>), EdmondsKarpError>(EdmondsKarpError::WorkLimit),
        r matches Ok(run) ==> certified_max_flow(*graph, source, sink, run.0),
        r matches Ok(run) ==> (run.1 matches Some(t) ==> replayable(t)),
        r == Err::<(EdmondsKarpResult, Option<TraceParts>), EdmondsKarpError>(EdmondsKarpError::AdmissionLimit) <==> over_admission(*graph),
        r == Err::<(EdmondsKarpResult, Option<TraceParts>), EdmondsKarpError>(EdmondsKarpError::Feasibility(FeasibilityError::InvalidTerminal))
            <==> !over_admission(*graph) && !valid_terminals(*graph, source, sink),
        r == Err::<(EdmondsKarpResult, Option<TraceParts>), EdmondsKarpError>(EdmondsKarpError::Feasibility(FeasibilityError::Infeasible)) ==> forall|f: Seq<int>|
            #[trigger] feasible_st_flow(*graph, f, source@ as int, sink@ as int) ==> flow_value(*graph, f, source@ as int) < 0,
        !(r matches Err(EdmondsKarpError::Certificate(_))),
        !(r matches Err(EdmondsKarpError::PredecessorInvariant)),
        r matches Ok(run) ==> (run.1 is Some <==> record_trace),
{
    proof {
        use_type_invariant(graph);
    }
    if graph.nodes().len() > EDMONDS_KARP_MAX_NODES || graph.edges().len() > EDMONDS_KARP_MAX_EDGES {
        return Err(EdmondsKarpError::AdmissionLimit);
    }
    let mut flows = match feasibility.find_max_flow_initial(graph, source, sink, FeasibilityUse::InitialFlow) {
        Ok(f) => f,
        Err(e) => return Err(EdmondsKarpError::Feasibility(e)),
    };
    let s = source.as_usize();
    let t = sink.as_usize();
    let n = graph.nodes().len();
    let net = ArcNet::from_network(graph);
    proof {
        assert(net.bounded(flows@)) by {
            assert forall|k: int| 0 <= k < net.m() implies net.lower@[k] <= #[trigger] flows@[k] <= net.cap@[k] by {
                assert(ints(flows@)[k] == flows@[k]);
                assert(graph.edge_seq()[k].lower <= ints(flows@)[k] <= graph.edge_seq()[k].capacity);
            }
        }
    }
    let ghost v0 = divergence(*graph, ints(flows@), s as int);
    let ghost per: int = n * (2 * graph.m());
    proof {
        lemma_outflow_window(*graph, ints(flows@), s as int);
    }
    let mut metrics = EdmondsKarpMetrics { bfs_runs: 0, residual_arc_scans: 0, augmentations: 0 };
    let mut recorder: Option<FlowTraceRecorder> = None;
    if record_trace {
        let empty_order: Vec<usize> = Vec::new();
        let empty_path: Vec<(usize, bool)> = Vec::new();
        let snapshot = match FlowTraceSnapshot::capture(graph, &flows, none_labels(n), &empty_order, &empty_path, Vec::new(), trace_metrics(metrics)) {
            Ok(s) => s,
            Err(e) => return Err(trace_error(e)),
        };
        recorder = match FlowTraceRecorder::new(graph, snapshot) {
            Ok(rec) => Some(rec),
            Err(e) => return Err(trace_error(e)),
        };
    }
    let empty: Vec<(usize, bool)> = Vec::new();
    loop
        invariant_except_break
            metrics.bfs_runs == metrics.augmentations,
        invariant
            net.wf(),
            net.bounded(flows@),
            net.n == n,
            n == graph.n(),
            s < n,
            t < n,
            s == source@,
            t == sink@,
            !over_admission(*graph),
            valid_terminals(*graph, source, sink),
            metrics.augmentations <= EDMONDS_KARP_MAX_AUGMENTATIONS,
            metrics.residual_arc_scans <= EDMONDS_KARP_MAX_RESIDUAL_ARC_SCANS,
            empty@.len() == 0,
            net.complete(),
            mirrors(&net, *graph),
            conserves_except(*graph, ints(flows@), s as int, t as int),
            recorder is Some <==> record_trace,
            divergence(*graph, ints(flows@), s as int) >= v0 + metrics.augmentations,
            v0 >= source_floor(*graph, s as int),
            per == n * (2 * graph.m()),
            max_listed(&net, n as int) <= 2 * graph.m(),
            metrics.residual_arc_scans <= metrics.bfs_runs * per,
            metrics.bfs_runs <= metrics.augmentations + 1,
        ensures
            metrics.bfs_runs == metrics.augmentations + 1,
            !forced(*graph, ints(flows@), s as int, t as int),
        decreases EDMONDS_KARP_MAX_AUGMENTATIONS - metrics.augmentations,
    {
        metrics.bfs_runs = metrics.bfs_runs + 1;
        let mut start_labels = none_labels(n);
        start_labels.set(s, Some(0));
        let mut start_order: Vec<usize> = Vec::new();
        start_order.push(s);
        match record(
            &mut recorder, graph, &flows, metrics,
            metadata("edmonds-karp.bfs", TraceGranularityV1::Phase, "edmonds-karp:search-shortest-augmenting-path"),
            start_labels, &start_order, &empty, &empty, Some(s), Some(("run", metrics.bfs_runs as i128)),
        ) {
            Ok(()) => {},
            Err(e) => return Err(trace_error(e)),
        }
        let mut steps: Option<Vec<ScanStep>> = if record_trace { Some(Vec::new()) } else { None };
        proof {
            lemma_mirror_bounds(&net, *graph, flows@);
            lemma_outflow_window(*graph, ints(flows@), s as int);
            assert(metrics.augmentations <= source_slack(*graph, s as int));
            lemma_max_listed_bounds(&net, n as int, s as int);
            let d = max_listed(&net, n as int);
            assert(n * d <= per) by (nonlinear_arith)
                requires
                    0 <= d <= 2 * graph.m(),
                    per == n * (2 * graph.m()),
            ;
            assert(metrics.bfs_runs * per == metrics.augmentations * per + per) by (nonlinear_arith)
                requires
                    metrics.bfs_runs == metrics.augmentations + 1,
            ;
            if within_work_ceilings(*graph, s as int) {
                let sl = source_slack(*graph, s as int);
                assert(metrics.bfs_runs * per <= (sl + 1) * per) by (nonlinear_arith)
                    requires
                        metrics.bfs_runs <= sl + 1,
                        per >= 0,
                ;
                assert(metrics.augmentations < EDMONDS_KARP_MAX_AUGMENTATIONS);
            }
        }
        let scans_before = metrics.residual_arc_scans;
        let mut scans = metrics.residual_arc_scans;
        let search = match shortest_path(&net, &flows, s, t, &mut scans, EDMONDS_KARP_MAX_RESIDUAL_ARC_SCANS, &mut steps) {
            Ok(found) => found,
            Err(e) => return Err(kernel_error(e)),
        };
        metrics.residual_arc_scans = scans;
        match steps {
            Some(list) => {
                let mut i: usize = 0;
                while i < list.len()
                    invariant
                        i <= list@.len(),
                        n == graph.n(),
                        !over_admission(*graph),
                        valid_terminals(*graph, source, sink),
                        recorder is Some <==> record_trace,
                    decreases list@.len() - i,
                {
                    let step = &list[i];
                    let mut view = metrics;
                    view.residual_arc_scans = step.scans;
                    let mut one: Vec<(usize, bool)> = Vec::new();
                    one.push(step.arc);
                    match record(
                        &mut recorder, graph, &flows, view,
                        metadata("edmonds-karp.inspect-residual-arc", TraceGranularityV1::Micro, "edmonds-karp:inspect-residual-arc"),
                        clone_labels(&step.distances), &step.order, &one, &one, None,
                        Some(("discovered", if step.discovered { 1 } else { 0 })),
                    ) {
                        Ok(()) => {},
                        Err(e) => return Err(trace_error(e)),
                    }
                    i = i + 1;
                }
            },
            None => {},
        }
        match record(
            &mut recorder, graph, &flows, metrics,
            metadata("edmonds-karp.bfs-complete", TraceGranularityV1::Phase, "edmonds-karp:finish-shortest-path-search"),
            clone_labels(&search.distances), &search.order, &empty, &empty, None,
            Some(("reachable", search.order.len() as i128)),
        ) {
            Ok(()) => {},
            Err(e) => return Err(trace_error(e)),
        }
        let path = match search.path {
            Some(p) => p,
            None => {
                proof {
                    let side = choose|side: Seq<bool>| side.len() == net.n && side[s as int] && !side[t as int] && #[trigger] side_closed(&net, flows@, side);
                    lemma_side_closed_is_residually_closed(&net, *graph, flows@, side);
                    assert(!forced(*graph, ints(flows@), s as int, t as int)) by {
                        assert(residually_closed(*graph, ints(flows@), side) && side[s as int]);
                    }
                }
                break;
            },
        };
        let mut len: usize = 0;
        while len < path.len()
            invariant
                len <= path@.len(),
                n == graph.n(),
                !over_admission(*graph),
                valid_terminals(*graph, source, sink),
                recorder is Some <==> record_trace,
            decreases path@.len() - len,
        {
            len = len + 1;
            let shown = prefix(&path, len);
            let focus = last_arc(&shown);
            match record(
                &mut recorder, graph, &flows, metrics,
                metadata("edmonds-karp.reconstruct-path", TraceGranularityV1::Micro, "edmonds-karp:follow-predecessor-edge"),
                clone_labels(&search.distances), &search.order, &shown, &focus, None,
                Some(("path-edges", len as i128)),
            ) {
                Ok(()) => {},
                Err(e) => return Err(trace_error(e)),
            }
        }
        proof {
            assert(path@.len() > 0);
        }
        let bottleneck = match net.bottleneck(&flows, &path) {
            Some(b) => b,
            None => return Err(EdmondsKarpError::PredecessorInvariant),
        };
        if metrics.augmentations >= EDMONDS_KARP_MAX_AUGMENTATIONS {
            return Err(EdmondsKarpError::WorkLimit);
        }
        let focus = bottleneck_arc(&net, &flows, &path);
        match record(
            &mut recorder, graph, &flows, metrics,
            metadata("edmonds-karp.bottleneck", TraceGranularityV1::Micro, "edmonds-karp:measure-path-bottleneck"),
            clone_labels(&search.distances), &search.order, &path, &focus, None,
            Some(("bottleneck", bottleneck as i128)),
        ) {
            Ok(()) => {},
            Err(e) => return Err(trace_error(e)),
        }
        let ghost before_flows = flows@;
        match net.augment(&mut flows, &path, bottleneck) {
            Ok(()) => {},
            Err(e) => return Err(kernel_error(e)),
        }
        proof {
            assert forall|v: int| 0 <= v < graph.n() && v != s && v != t implies #[trigger] divergence(*graph, ints(flows@), v) == 0 by {
                let m = graph.m() as int;
                lemma_net_div_is_divergence(&net, *graph, flows@, v, m);
                lemma_net_div_is_divergence(&net, *graph, before_flows, v, m);
                assert(net_div(&net, flows@, v, m) == net_div(&net, before_flows, v, m) + bottleneck * walk_balance(&net, path@, v, path@.len() as int));
                lemma_walk_balance(&net, path@, s as int, v, path@.len() as int);
                assert(walk_balance(&net, path@, v, path@.len() as int) == 0);
                assert(bottleneck * walk_balance(&net, path@, v, path@.len() as int) == 0) by (nonlinear_arith)
                    requires
                        walk_balance(&net, path@, v, path@.len() as int) == 0,
                ;
                assert(divergence(*graph, ints(before_flows), v) == 0);
            }
            let m = graph.m() as int;
            lemma_net_div_is_divergence(&net, *graph, flows@, s as int, m);
            lemma_net_div_is_divergence(&net, *graph, before_flows, s as int, m);
            lemma_walk_balance(&net, path@, s as int, s as int, path@.len() as int);
            assert(walk_balance(&net, path@, s as int, path@.len() as int) == 1);
            let i = choose|i: int| 0 <= i < path@.len() && bottleneck == room_of(&net, before_flows, #[trigger] path@[i]);
            assert(room_of(&net, before_flows, path@[i]) > 0);
            assert(bottleneck * walk_balance(&net, path@, s as int, path@.len() as int) == bottleneck) by (nonlinear_arith)
                requires
                    walk_balance(&net, path@, s as int, path@.len() as int) == 1,
            ;
        }
        metrics.augmentations = metrics.augmentations + 1;
        match record(
            &mut recorder, graph, &flows, metrics,
            metadata("edmonds-karp.augment", TraceGranularityV1::Operation, "edmonds-karp:augment-by-bottleneck"),
            clone_labels(&search.distances), &search.order, &path, &path, None,
            Some(("amount", bottleneck as i128)),
        ) {
            Ok(()) => {},
            Err(e) => return Err(trace_error(e)),
        }
    }
    proof {
        lemma_mirror_bounds(&net, *graph, flows@);
        lemma_outflow_window(*graph, ints(flows@), s as int);
    }
    proof {
        assert(crate::flows::within_bounds(*graph, ints(flows@))) by {
            assert forall|k: int| 0 <= k < graph.m() implies graph.edge_seq()[k].lower <= #[trigger] ints(flows@)[k] <= graph.edge_seq()[k].capacity by {
                assert(ints(flows@)[k] == flows@[k]);
                assert(net.lower@[k] <= flows@[k] <= net.cap@[k]);
            }
        }
    }
    let certificate = match check_max_flow(graph, source, sink, flows.as_slice()) {
        Ok(c) => c,
        Err(e) => return Err(EdmondsKarpError::Certificate(e)),
    };
    let empty_order: Vec<usize> = Vec::new();
    match record(
        &mut recorder, graph, &flows, metrics,
        metadata("edmonds-karp.optimal", TraceGranularityV1::Phase, "edmonds-karp:return-max-flow-min-cut"),
        none_labels(n), &empty_order, &empty, &empty, None,
        Some(("cut", certificate.cut_bound)),
    ) {
        Ok(()) => {},
        Err(e) => return Err(trace_error(e)),
    }
    let trace = match recorder {
        Some(rec) => Some(rec.finish()),
        None => None,
    };
    Ok((EdmondsKarpResult { flows, certificate, metrics }, trace))
}

} // verus!
