//! Reversible execution traces: snapshots, patches between them, and replay.
use vstd::prelude::*;

use crate::ids::{EdgeId, NodeId};
use crate::model::{EdgeIndex, FlowNetwork, NodeIndex};
use crate::residual::ResidualArcId;

verus! {

/// Coarsest level at which an event is shown.
#[derive(Clone, Copy, Debug, PartialEq, Eq, Hash)]
pub enum TraceGranularityV1 {
    /// A whole phase of the algorithm.
    Phase,
    /// One committed operation.
    Operation,
    /// One inspection or bookkeeping step.
    Micro,
}

/// Which way an event is replayed.
#[derive(Clone, Copy, Debug, PartialEq, Eq)]
pub enum FlowTraceDirection {
    /// From the event's before-state to its after-state.
    Forward,
    /// From the event's after-state back to its before-state.
    Reverse,
}

/// Why a trace could not be built or replayed.
#[derive(Clone, Copy, Debug, PartialEq, Eq)]
pub enum FlowTraceError {
    /// A snapshot's shape does not match the network.
    Shape,
    /// A patch's before-value does not match the state it is applied to.
    Mismatch,
    /// A referenced node or edge does not exist.
    MissingEntity,
    /// An event was recorded out of the vocabulary of its algorithm.
    Precondition,
}

/// Work counters shown alongside a snapshot.
#[derive(Clone, Copy, Debug, Default, PartialEq, Eq, Hash)]
pub struct FlowTraceMetrics {
    /// Breadth-first searches.
    pub bfs_runs: u128,
    /// Relaxation passes.
    pub relaxation_passes: u128,
    /// Positive residual arcs inspected.
    pub residual_arc_scans: u128,
    /// Augmentations or cancellations.
    pub augmentations: u128,
    /// Path or cycle searches.
    pub path_searches: u128,
    /// Scaling phases.
    pub scaling_phases: u128,
    /// Blocking-flow phases.
    pub blocking_flow_phases: u128,
    /// Relabels or potential recomputations.
    pub relabels: u128,
    /// Retreats or cycle-arc scans.
    pub retreats: u128,
    /// Reverse searches or tree links.
    pub reverse_bfs_runs: u128,
    /// Gap terminations or bound flips.
    pub gap_terminations: u128,
    /// Pushes or basis exchanges.
    pub pushes: u128,
    /// Saturating pushes or nondegenerate pivots.
    pub saturating_pushes: u128,
    /// Nonsaturating pushes or degenerate pivots.
    pub nonsaturating_pushes: u128,
    /// Discharges or tree cuts.
    pub discharges: u128,
    /// Active-vertex selections or tree rebuilds.
    pub active_vertex_selections: u128,
}

/// Names of the counters in [`FlowTraceMetrics`].
#[derive(Clone, Copy, Debug, PartialEq, Eq, Hash)]
pub enum FlowTraceMetricId {
    /// `bfs_runs`.
    BfsRuns,
    /// `relaxation_passes`.
    RelaxationPasses,
    /// `residual_arc_scans`.
    ResidualArcScans,
    /// `augmentations`.
    Augmentations,
    /// `path_searches`.
    PathSearches,
    /// `scaling_phases`.
    ScalingPhases,
    /// `blocking_flow_phases`.
    BlockingFlowPhases,
    /// `relabels`.
    Relabels,
    /// `retreats`.
    Retreats,
    /// `reverse_bfs_runs`.
    ReverseBfsRuns,
    /// `gap_terminations`.
    GapTerminations,
    /// `pushes`.
    Pushes,
    /// `saturating_pushes`.
    SaturatingPushes,
    /// `nonsaturating_pushes`.
    NonsaturatingPushes,
    /// `discharges`.
    Discharges,
    /// `active_vertex_selections`.
    ActiveVertexSelections,
}

/// Counter value by name.
pub open spec fn metric_value(m: FlowTraceMetrics, id: FlowTraceMetricId) -> u128 {
    match id {
        FlowTraceMetricId::BfsRuns => m.bfs_runs,
        FlowTraceMetricId::RelaxationPasses => m.relaxation_passes,
        FlowTraceMetricId::ResidualArcScans => m.residual_arc_scans,
        FlowTraceMetricId::Augmentations => m.augmentations,
        FlowTraceMetricId::PathSearches => m.path_searches,
        FlowTraceMetricId::ScalingPhases => m.scaling_phases,
        FlowTraceMetricId::BlockingFlowPhases => m.blocking_flow_phases,
        FlowTraceMetricId::Relabels => m.relabels,
        FlowTraceMetricId::Retreats => m.retreats,
        FlowTraceMetricId::ReverseBfsRuns => m.reverse_bfs_runs,
        FlowTraceMetricId::GapTerminations => m.gap_terminations,
        FlowTraceMetricId::Pushes => m.pushes,
        FlowTraceMetricId::SaturatingPushes => m.saturating_pushes,
        FlowTraceMetricId::NonsaturatingPushes => m.nonsaturating_pushes,
        FlowTraceMetricId::Discharges => m.discharges,
        FlowTraceMetricId::ActiveVertexSelections => m.active_vertex_selections,
    }
}

/// The counters with one of them replaced.
pub open spec fn metrics_with(m: FlowTraceMetrics, id: FlowTraceMetricId, v: u128) -> FlowTraceMetrics {
    match id {
        FlowTraceMetricId::BfsRuns => FlowTraceMetrics { bfs_runs: v, ..m },
        FlowTraceMetricId::RelaxationPasses => FlowTraceMetrics { relaxation_passes: v, ..m },
        FlowTraceMetricId::ResidualArcScans => FlowTraceMetrics { residual_arc_scans: v, ..m },
        FlowTraceMetricId::Augmentations => FlowTraceMetrics { augmentations: v, ..m },
        FlowTraceMetricId::PathSearches => FlowTraceMetrics { path_searches: v, ..m },
        FlowTraceMetricId::ScalingPhases => FlowTraceMetrics { scaling_phases: v, ..m },
        FlowTraceMetricId::BlockingFlowPhases => FlowTraceMetrics { blocking_flow_phases: v, ..m },
        FlowTraceMetricId::Relabels => FlowTraceMetrics { relabels: v, ..m },
        FlowTraceMetricId::Retreats => FlowTraceMetrics { retreats: v, ..m },
        FlowTraceMetricId::ReverseBfsRuns => FlowTraceMetrics { reverse_bfs_runs: v, ..m },
        FlowTraceMetricId::GapTerminations => FlowTraceMetrics { gap_terminations: v, ..m },
        FlowTraceMetricId::Pushes => FlowTraceMetrics { pushes: v, ..m },
        FlowTraceMetricId::SaturatingPushes => FlowTraceMetrics { saturating_pushes: v, ..m },
        FlowTraceMetricId::NonsaturatingPushes => FlowTraceMetrics { nonsaturating_pushes: v, ..m },
        FlowTraceMetricId::Discharges => FlowTraceMetrics { discharges: v, ..m },
        FlowTraceMetricId::ActiveVertexSelections => FlowTraceMetrics { active_vertex_selections: v, ..m },
    }
}

/// Position of a counter in the fixed counter order.
pub open spec fn metric_index(id: FlowTraceMetricId) -> int {
    match id {
        FlowTraceMetricId::BfsRuns => 0,
        FlowTraceMetricId::RelaxationPasses => 1,
        FlowTraceMetricId::ResidualArcScans => 2,
        FlowTraceMetricId::Augmentations => 3,
        FlowTraceMetricId::PathSearches => 4,
        FlowTraceMetricId::ScalingPhases => 5,
        FlowTraceMetricId::BlockingFlowPhases => 6,
        FlowTraceMetricId::Relabels => 7,
        FlowTraceMetricId::Retreats => 8,
        FlowTraceMetricId::ReverseBfsRuns => 9,
        FlowTraceMetricId::GapTerminations => 10,
        FlowTraceMetricId::Pushes => 11,
        FlowTraceMetricId::SaturatingPushes => 12,
        FlowTraceMetricId::NonsaturatingPushes => 13,
        FlowTraceMetricId::Discharges => 14,
        FlowTraceMetricId::ActiveVertexSelections => 15,
    }
}

/// Two counter sets that agree on every counter are equal.
pub proof fn lemma_metrics_ext(a: FlowTraceMetrics, b: FlowTraceMetrics)
    requires
        forall|id: FlowTraceMetricId| #[trigger] metric_value(a, id) == metric_value(b, id),
    ensures
        a == b,
{
    assert(metric_value(a, FlowTraceMetricId::BfsRuns) == metric_value(b, FlowTraceMetricId::BfsRuns));
    assert(metric_value(a, FlowTraceMetricId::RelaxationPasses) == metric_value(b, FlowTraceMetricId::RelaxationPasses));
    assert(metric_value(a, FlowTraceMetricId::ResidualArcScans) == metric_value(b, FlowTraceMetricId::ResidualArcScans));
    assert(metric_value(a, FlowTraceMetricId::Augmentations) == metric_value(b, FlowTraceMetricId::Augmentations));
    assert(metric_value(a, FlowTraceMetricId::PathSearches) == metric_value(b, FlowTraceMetricId::PathSearches));
    assert(metric_value(a, FlowTraceMetricId::ScalingPhases) == metric_value(b, FlowTraceMetricId::ScalingPhases));
    assert(metric_value(a, FlowTraceMetricId::BlockingFlowPhases) == metric_value(b, FlowTraceMetricId::BlockingFlowPhases));
    assert(metric_value(a, FlowTraceMetricId::Relabels) == metric_value(b, FlowTraceMetricId::Relabels));
    assert(metric_value(a, FlowTraceMetricId::Retreats) == metric_value(b, FlowTraceMetricId::Retreats));
    assert(metric_value(a, FlowTraceMetricId::ReverseBfsRuns) == metric_value(b, FlowTraceMetricId::ReverseBfsRuns));
    assert(metric_value(a, FlowTraceMetricId::GapTerminations) == metric_value(b, FlowTraceMetricId::GapTerminations));
    assert(metric_value(a, FlowTraceMetricId::Pushes) == metric_value(b, FlowTraceMetricId::Pushes));
    assert(metric_value(a, FlowTraceMetricId::SaturatingPushes) == metric_value(b, FlowTraceMetricId::SaturatingPushes));
    assert(metric_value(a, FlowTraceMetricId::NonsaturatingPushes) == metric_value(b, FlowTraceMetricId::NonsaturatingPushes));
    assert(metric_value(a, FlowTraceMetricId::Discharges) == metric_value(b, FlowTraceMetricId::Discharges));
    assert(metric_value(a, FlowTraceMetricId::ActiveVertexSelections) == metric_value(b, FlowTraceMetricId::ActiveVertexSelections));
}

proof fn lemma_metrics_with(m: FlowTraceMetrics, id: FlowTraceMetricId, v: u128)
    ensures
        metric_value(metrics_with(m, id, v), id) == v,
        forall|other: FlowTraceMetricId| other != id ==> #[trigger] metric_value(metrics_with(m, id, v), other) == metric_value(m, other),
{
}

/// What a snapshot shows, with identities read as their bytes: flows, node
/// labels, search order, active path, remaining divergence, and counters.
pub type TraceView = (Seq<u64>, Seq<Option<i128>>, Seq<Seq<u8>>, Seq<(nat, bool, Seq<u8>)>, Seq<i128>, FlowTraceMetrics);

/// Node identities as bytes.
pub open spec fn node_keys(s: Seq<NodeId>) -> Seq<Seq<u8>> {
    Seq::new(s.len(), |i: int| s[i]@)
}

/// A residual arc as its edge position, direction and edge identity.
pub open spec fn arc_key(a: ResidualArcId) -> (nat, bool, Seq<u8>) {
    (a.edge@, a.is_forward(), a.original@)
}

/// Residual arcs as keys.
pub open spec fn arc_keys(s: Seq<ResidualArcId>) -> Seq<(nat, bool, Seq<u8>)> {
    Seq::new(s.len(), |i: int| arc_key(s[i]))
}

/// The view of a snapshot.
pub open spec fn trace_view(s: FlowTraceSnapshot) -> TraceView {
    (s.flows@, s.node_labels@, node_keys(s.search_order@), arc_keys(s.active_path@), s.remaining_divergence@, s.metrics)
}

/// The field a patch changes: a kind and a position.
pub open spec fn patch_field(p: FlowTracePatch) -> (int, int) {
    match p {
        FlowTracePatch::EdgeFlow { edge, .. } => (0, edge as int),
        FlowTracePatch::NodeLabel { node, .. } => (1, node as int),
        FlowTracePatch::SearchOrder { .. } => (2, 0),
        FlowTracePatch::ActivePath { .. } => (3, 0),
        FlowTracePatch::RemainingDivergence { .. } => (4, 0),
        FlowTracePatch::Metric { metric, .. } => (5, metric_index(metric)),
    }
}

/// The view holds what the patch leaves when replayed in direction
/// `forward`: its after-value forward, its before-value in reverse.
pub open spec fn patch_landed(v: TraceView, p: FlowTracePatch, forward: bool) -> bool {
    match p {
        FlowTracePatch::EdgeFlow { edge, before, after } => edge < v.0.len() && v.0[edge as int] == (if forward { after } else { before }),
        FlowTracePatch::NodeLabel { node, before, after } => node < v.1.len() && v.1[node as int] == (if forward { after } else { before }),
        FlowTracePatch::SearchOrder { before, after } => v.2 == node_keys(if forward { after@ } else { before@ }),
        FlowTracePatch::ActivePath { before, after } => v.3 == arc_keys(if forward { after@ } else { before@ }),
        FlowTracePatch::RemainingDivergence { before, after } => v.4 == (if forward { after@ } else { before@ }),
        FlowTracePatch::Metric { metric, before, after } => metric_value(v.5, metric) == (if forward { after } else { before }),
    }
}

/// Replays one patch; `None` when the view does not hold its starting value.
pub open spec fn patch_step(v: TraceView, p: FlowTracePatch, forward: bool) -> Option<TraceView> {
    if !patch_landed(v, p, !forward) {
        None
    } else {
        match p {
            FlowTracePatch::EdgeFlow { edge, before, after } => Some((v.0.update(edge as int, if forward { after } else { before }), v.1, v.2, v.3, v.4, v.5)),
            FlowTracePatch::NodeLabel { node, before, after } => Some((v.0, v.1.update(node as int, if forward { after } else { before }), v.2, v.3, v.4, v.5)),
            FlowTracePatch::SearchOrder { before, after } => Some((v.0, v.1, node_keys(if forward { after@ } else { before@ }), v.3, v.4, v.5)),
            FlowTracePatch::ActivePath { before, after } => Some((v.0, v.1, v.2, arc_keys(if forward { after@ } else { before@ }), v.4, v.5)),
            FlowTracePatch::RemainingDivergence { before, after } => Some((v.0, v.1, v.2, v.3, if forward { after@ } else { before@ }, v.5)),
            FlowTracePatch::Metric { metric, before, after } => Some((v.0, v.1, v.2, v.3, v.4, metrics_with(v.5, metric, if forward { after } else { before }))),
        }
    }
}

/// Replays the first `k` patches in order.
pub open spec fn patches_step(v: TraceView, ps: Seq<FlowTracePatch>, k: int, forward: bool) -> Option<TraceView>
    decreases k,
{
    if k <= 0 {
        Some(v)
    } else {
        match patches_step(v, ps, k - 1, forward) {
            Some(w) => patch_step(w, ps[k - 1], forward),
            None => None,
        }
    }
}

/// No two patches change the same field.
pub open spec fn distinct_fields(ps: Seq<FlowTracePatch>) -> bool {
    forall|i: int, j: int| 0 <= i < ps.len() && 0 <= j < ps.len() && i != j ==> patch_field(#[trigger] ps[i]) != patch_field(#[trigger] ps[j])
}

/// No patch among the first `k` changes field `f`.
pub open spec fn untouched(ps: Seq<FlowTracePatch>, k: int, f: (int, int)) -> bool {
    forall|i: int| 0 <= i < k ==> patch_field(#[trigger] ps[i]) != f
}

/// Two views agree on every field that no patch among the first `k` changes.
pub open spec fn agree_off(a: TraceView, b: TraceView, ps: Seq<FlowTracePatch>, k: int) -> bool {
    &&& a.0.len() == b.0.len()
    &&& a.1.len() == b.1.len()
    &&& forall|e: int| 0 <= e < a.0.len() && untouched(ps, k, (0, e)) ==> #[trigger] a.0[e] == b.0[e]
    &&& forall|v: int| 0 <= v < a.1.len() && untouched(ps, k, (1, v)) ==> #[trigger] a.1[v] == b.1[v]
    &&& untouched(ps, k, (2, 0)) ==> a.2 == b.2
    &&& untouched(ps, k, (3, 0)) ==> a.3 == b.3
    &&& untouched(ps, k, (4, 0)) ==> a.4 == b.4
    &&& forall|id: FlowTraceMetricId| untouched(ps, k, (5, metric_index(id))) ==> #[trigger] metric_value(a.5, id) == metric_value(b.5, id)
}

proof fn lemma_landed_transfers(a: TraceView, b: TraceView, ps: Seq<FlowTracePatch>, k: int, p: FlowTracePatch, forward: bool)
    requires
        agree_off(a, b, ps, k),
        untouched(ps, k, patch_field(p)),
    ensures
        patch_landed(a, p, forward) == patch_landed(b, p, forward),
{
    match p {
        FlowTracePatch::EdgeFlow { edge, .. } => {
            if edge < a.0.len() {
                assert(a.0[edge as int] == b.0[edge as int]);
            }
        },
        FlowTracePatch::NodeLabel { node, .. } => {
            if node < a.1.len() {
                assert(a.1[node as int] == b.1[node as int]);
            }
        },
        FlowTracePatch::Metric { metric, .. } => {
            assert(metric_value(a.5, metric) == metric_value(b.5, metric));
        },
        _ => {},
    }
}

proof fn lemma_step_keeps_other_fields(u: TraceView, q: FlowTracePatch, forward: bool, p: FlowTracePatch, g: bool)
    requires
        patch_step(u, q, forward) is Some,
        patch_field(q) != patch_field(p),
    ensures
        patch_landed(patch_step(u, q, forward).unwrap(), p, g) == patch_landed(u, p, g),
{
    let w = patch_step(u, q, forward).unwrap();
    match q {
        FlowTracePatch::Metric { metric, before, after } => {
            lemma_metrics_with(u.5, metric, if forward { after } else { before });
            match p {
                FlowTracePatch::Metric { metric: other, .. } => {
                    if metric_index(other) != metric_index(metric) {
                        assert(other != metric);
                    }
                },
                _ => {},
            }
        },
        _ => {},
    }
}

/// Replaying a prefix of patches that change distinct fields leaves every
/// other field alone, lands every replayed patch, and needed every one of
/// them to start from its starting value in the original view.
proof fn lemma_replay_prefix(v: TraceView, ps: Seq<FlowTracePatch>, k: int, forward: bool)
    requires
        distinct_fields(ps),
        0 <= k <= ps.len(),
        patches_step(v, ps, k, forward) is Some,
    ensures
        agree_off(patches_step(v, ps, k, forward).unwrap(), v, ps, k),
        forall|i: int| 0 <= i < k ==> patch_landed(patches_step(v, ps, k, forward).unwrap(), #[trigger] ps[i], forward),
        forall|i: int| 0 <= i < k ==> patch_landed(v, #[trigger] ps[i], !forward),
    decreases k,
{
    if k > 0 {
        lemma_replay_prefix(v, ps, k - 1, forward);
        let u = patches_step(v, ps, k - 1, forward).unwrap();
        let q = ps[k - 1];
        let w = patches_step(v, ps, k, forward).unwrap();
        assert(patch_step(u, q, forward) == Some(w));
        assert(untouched(ps, k - 1, patch_field(q)));
        lemma_landed_transfers(u, v, ps, k - 1, q, !forward);
        assert forall|i: int| 0 <= i < k implies patch_landed(w, #[trigger] ps[i], forward) by {
            if i < k - 1 {
                lemma_step_keeps_other_fields(u, q, forward, ps[i], forward);
            }
        }
        match q {
            FlowTracePatch::Metric { metric, before, after } => {
                lemma_metrics_with(u.5, metric, if forward { after } else { before });
                assert forall|id: FlowTraceMetricId| untouched(ps, k, (5, metric_index(id))) implies #[trigger] metric_value(w.5, id) == metric_value(v.5, id) by {
                    assert(patch_field(ps[k - 1]) != (5int, metric_index(id)));
                    assert(id != metric);
                    assert(untouched(ps, k - 1, (5, metric_index(id))));
                }
            },
            _ => {},
        }
        assert(agree_off(w, v, ps, k));
    }
}

proof fn lemma_reverse_succeeds(w: TraceView, ps: Seq<FlowTracePatch>, k: int)
    requires
        distinct_fields(ps),
        0 <= k <= ps.len(),
        forall|i: int| 0 <= i < ps.len() ==> patch_landed(w, #[trigger] ps[i], true),
    ensures
        patches_step(w, ps, k, false) is Some,
    decreases k,
{
    if k > 0 {
        lemma_reverse_succeeds(w, ps, k - 1);
        lemma_replay_prefix(w, ps, k - 1, false);
        let u = patches_step(w, ps, k - 1, false).unwrap();
        assert(untouched(ps, k - 1, patch_field(ps[k - 1])));
        lemma_landed_transfers(u, w, ps, k - 1, ps[k - 1], true);
    }
}

/// Replaying an event backwards undoes replaying it forwards: when the
/// patches change distinct fields and a forward replay from `v` succeeds, a
/// reverse replay of the same patches from the result succeeds and gives
/// back exactly `v`.
pub proof fn lemma_reverse_replay_restores(v: TraceView, ps: Seq<FlowTracePatch>)
    requires
        distinct_fields(ps),
        patches_step(v, ps, ps.len() as int, true) is Some,
    ensures
        patches_step(patches_step(v, ps, ps.len() as int, true).unwrap(), ps, ps.len() as int, false) == Some(v),
{
    let n = ps.len() as int;
    lemma_replay_prefix(v, ps, n, true);
    let w = patches_step(v, ps, n, true).unwrap();
    lemma_reverse_succeeds(w, ps, n);
    lemma_replay_prefix(w, ps, n, false);
    let r = patches_step(w, ps, n, false).unwrap();
    assert(r.0 =~= v.0) by {
        assert forall|e: int| 0 <= e < r.0.len() implies r.0[e] == v.0[e] by {
            if !untouched(ps, n, (0, e)) {
                let i = choose|i: int| 0 <= i < n && patch_field(#[trigger] ps[i]) == (0int, e);
                assert(patch_landed(r, ps[i], false));
                assert(patch_landed(v, ps[i], false));
            } else {
                assert(r.0[e] == w.0[e]);
            }
        }
    }
    assert(r.1 =~= v.1) by {
        assert forall|x: int| 0 <= x < r.1.len() implies r.1[x] == v.1[x] by {
            if !untouched(ps, n, (1, x)) {
                let i = choose|i: int| 0 <= i < n && patch_field(#[trigger] ps[i]) == (1int, x);
                assert(patch_landed(r, ps[i], false));
                assert(patch_landed(v, ps[i], false));
            } else {
                assert(r.1[x] == w.1[x]);
            }
        }
    }
    if !untouched(ps, n, (2, 0)) {
        let i = choose|i: int| 0 <= i < n && patch_field(#[trigger] ps[i]) == (2int, 0int);
        assert(patch_landed(r, ps[i], false));
        assert(patch_landed(v, ps[i], false));
    }
    if !untouched(ps, n, (3, 0)) {
        let i = choose|i: int| 0 <= i < n && patch_field(#[trigger] ps[i]) == (3int, 0int);
        assert(patch_landed(r, ps[i], false));
        assert(patch_landed(v, ps[i], false));
    }
    if !untouched(ps, n, (4, 0)) {
        let i = choose|i: int| 0 <= i < n && patch_field(#[trigger] ps[i]) == (4int, 0int);
        assert(patch_landed(r, ps[i], false));
        assert(patch_landed(v, ps[i], false));
    }
    assert forall|id: FlowTraceMetricId| #[trigger] metric_value(r.5, id) == metric_value(v.5, id) by {
        if !untouched(ps, n, (5, metric_index(id))) {
            let i = choose|i: int| 0 <= i < n && patch_field(#[trigger] ps[i]) == (5int, metric_index(id));
            assert(patch_landed(r, ps[i], false));
            assert(patch_landed(v, ps[i], false));
            match ps[i] {
                FlowTracePatch::Metric { metric, .. } => {
                    assert(metric_index(metric) == metric_index(id));
                    assert(metric == id);
                },
                _ => {},
            }
        } else {
            assert(metric_value(r.5, id) == metric_value(w.5, id));
        }
    }
    lemma_metrics_ext(r.5, v.5);
    assert(r == v);
}

/// Replaying the first `k` events forward, one after another, from `v`.
pub open spec fn replay_through(v: TraceView, events: Seq<FlowTraceEvent>, k: int) -> Option<TraceView>
    decreases k,
{
    if k <= 0 {
        Some(v)
    } else {
        match replay_through(v, events, k - 1) {
            Some(w) => patches_step(w, events[k - 1].patches@, events[k - 1].patches@.len() as int, true),
            None => None,
        }
    }
}

/// Replaying the first `k` events backward, from the `k`-th down to the first, from `v`.
pub open spec fn replay_back(v: TraceView, events: Seq<FlowTraceEvent>, k: int) -> Option<TraceView>
    decreases k,
{
    if k <= 0 {
        Some(v)
    } else {
        match patches_step(v, events[k - 1].patches@, events[k - 1].patches@.len() as int, false) {
            Some(w) => replay_back(w, events, k - 1),
            None => None,
        }
    }
}

/// A trace that replays: every event changes distinct fields, and replaying
/// all events forward from `base` ends exactly at `last`.
pub open spec fn trace_replays(base: TraceView, events: Seq<FlowTraceEvent>, last: TraceView) -> bool {
    &&& forall|i: int| 0 <= i < events.len() ==> distinct_fields(#[trigger] events[i].patches@)
    &&& replay_through(base, events, events.len() as int) == Some(last)
}

/// A finished trace (base, events, last) that replays.
pub open spec fn replayable(t: (FlowTraceSnapshot, Vec<FlowTraceEvent>, FlowTraceSnapshot)) -> bool {
    trace_replays(trace_view(t.0), t.1@, trace_view(t.2))
}

proof fn lemma_replay_through_push(v: TraceView, events: Seq<FlowTraceEvent>, e: FlowTraceEvent, k: int)
    requires
        0 <= k <= events.len(),
    ensures
        replay_through(v, events.push(e), k) == replay_through(v, events, k),
    decreases k,
{
    if k > 0 {
        lemma_replay_through_push(v, events, e, k - 1);
        assert(events.push(e)[k - 1] == events[k - 1]);
    }
}

proof fn lemma_replay_back_from(base: TraceView, events: Seq<FlowTraceEvent>, k: int)
    requires
        0 <= k <= events.len(),
        forall|i: int| 0 <= i < events.len() ==> distinct_fields(#[trigger] events[i].patches@),
        replay_through(base, events, k) is Some,
    ensures
        replay_back(replay_through(base, events, k).unwrap(), events, k) == Some(base),
    decreases k,
{
    if k > 0 {
        let prev = replay_through(base, events, k - 1).unwrap();
        let ps = events[k - 1].patches@;
        assert(distinct_fields(ps));
        lemma_reverse_replay_restores(prev, ps);
        lemma_replay_back_from(base, events, k - 1);
    }
}

/// A trace that replays forward from its base to its last state also
/// replays backward, event by event from the last to the first, from its
/// last state to exactly its base.
pub proof fn lemma_trace_replays_backward(base: TraceView, events: Seq<FlowTraceEvent>, last: TraceView)
    requires
        trace_replays(base, events, last),
    ensures
        replay_back(last, events, events.len() as int) == Some(base),
{
    lemma_replay_back_from(base, events, events.len() as int);
}

fn metric_ids() -> (r: Vec<FlowTraceMetricId>)
    ensures
        r@.len() == 16,
        forall|j: int| 0 <= j < 16 ==> metric_index(#[trigger] r@[j]) == j,
{
    let mut r: Vec<FlowTraceMetricId> = Vec::new();
    r.push(FlowTraceMetricId::BfsRuns);
    r.push(FlowTraceMetricId::RelaxationPasses);
    r.push(FlowTraceMetricId::ResidualArcScans);
    r.push(FlowTraceMetricId::Augmentations);
    r.push(FlowTraceMetricId::PathSearches);
    r.push(FlowTraceMetricId::ScalingPhases);
    r.push(FlowTraceMetricId::BlockingFlowPhases);
    r.push(FlowTraceMetricId::Relabels);
    r.push(FlowTraceMetricId::Retreats);
    r.push(FlowTraceMetricId::ReverseBfsRuns);
    r.push(FlowTraceMetricId::GapTerminations);
    r.push(FlowTraceMetricId::Pushes);
    r.push(FlowTraceMetricId::SaturatingPushes);
    r.push(FlowTraceMetricId::NonsaturatingPushes);
    r.push(FlowTraceMetricId::Discharges);
    r.push(FlowTraceMetricId::ActiveVertexSelections);
    r
}

impl FlowTraceMetrics {
    /// Reads one counter.
    pub fn get(&self, id: FlowTraceMetricId) -> (r: u128)
        ensures
            r == metric_value(*self, id),
    {
        match id {
            FlowTraceMetricId::BfsRuns => self.bfs_runs,
            FlowTraceMetricId::RelaxationPasses => self.relaxation_passes,
            FlowTraceMetricId::ResidualArcScans => self.residual_arc_scans,
            FlowTraceMetricId::Augmentations => self.augmentations,
            FlowTraceMetricId::PathSearches => self.path_searches,
            FlowTraceMetricId::ScalingPhases => self.scaling_phases,
            FlowTraceMetricId::BlockingFlowPhases => self.blocking_flow_phases,
            FlowTraceMetricId::Relabels => self.relabels,
            FlowTraceMetricId::Retreats => self.retreats,
            FlowTraceMetricId::ReverseBfsRuns => self.reverse_bfs_runs,
            FlowTraceMetricId::GapTerminations => self.gap_terminations,
            FlowTraceMetricId::Pushes => self.pushes,
            FlowTraceMetricId::SaturatingPushes => self.saturating_pushes,
            FlowTraceMetricId::NonsaturatingPushes => self.nonsaturating_pushes,
            FlowTraceMetricId::Discharges => self.discharges,
            FlowTraceMetricId::ActiveVertexSelections => self.active_vertex_selections,
        }
    }

    /// Writes one counter.
    pub fn set(&mut self, id: FlowTraceMetricId, value: u128)
        ensures
            *final(self) == metrics_with(*old(self), id, value),
            metric_value(*final(self), id) == value,
            forall|other: FlowTraceMetricId| other != id ==> metric_value(*final(self), other) == metric_value(*old(self), other),
    {
        match id {
            FlowTraceMetricId::BfsRuns => self.bfs_runs = value,
            FlowTraceMetricId::RelaxationPasses => self.relaxation_passes = value,
            FlowTraceMetricId::ResidualArcScans => self.residual_arc_scans = value,
            FlowTraceMetricId::Augmentations => self.augmentations = value,
            FlowTraceMetricId::PathSearches => self.path_searches = value,
            FlowTraceMetricId::ScalingPhases => self.scaling_phases = value,
            FlowTraceMetricId::BlockingFlowPhases => self.blocking_flow_phases = value,
            FlowTraceMetricId::Relabels => self.relabels = value,
            FlowTraceMetricId::Retreats => self.retreats = value,
            FlowTraceMetricId::ReverseBfsRuns => self.reverse_bfs_runs = value,
            FlowTraceMetricId::GapTerminations => self.gap_terminations = value,
            FlowTraceMetricId::Pushes => self.pushes = value,
            FlowTraceMetricId::SaturatingPushes => self.saturating_pushes = value,
            FlowTraceMetricId::NonsaturatingPushes => self.nonsaturating_pushes = value,
            FlowTraceMetricId::Discharges => self.discharges = value,
            FlowTraceMetricId::ActiveVertexSelections => self.active_vertex_selections = value,
        }
    }
}

/// Everything a viewer shows at one replay boundary.
#[derive(Clone, Debug, PartialEq, Eq)]
pub struct FlowTraceSnapshot {
    /// Flow on every edge, in canonical order.
    pub flows: Vec<u64>,
    /// Search label (distance or potential) of every node.
    pub node_labels: Vec<Option<i128>>,
    /// Nodes in the order the current search reached them.
    pub search_order: Vec<NodeId>,
    /// Residual arcs of the path or cycle in focus.
    pub active_path: Vec<ResidualArcId>,
    /// Divergence still to be routed at every node (empty when unused).
    pub remaining_divergence: Vec<i128>,
    /// Work counters.
    pub metrics: FlowTraceMetrics,
}

/// A thing an event points at.
#[derive(Clone, Debug, PartialEq, Eq)]
pub enum FlowTraceEntityRef {
    /// A node.
    Node(NodeId),
    /// An original edge.
    Edge(EdgeId),
    /// A residual arc.
    ResidualArc(ResidualArcId),
}

/// A labelled integer attached to an event.
#[derive(Clone, Debug, PartialEq, Eq)]
pub struct FlowTraceDetail {
    /// What the value measures.
    pub label: String,
    /// The value.
    pub value: i128,
}

/// One field change between two snapshots.
#[derive(Clone, Debug, PartialEq, Eq)]
pub enum FlowTracePatch {
    /// Flow of one edge.
    EdgeFlow {
        /// Canonical edge index.
        edge: usize,
        /// Flow before.
        before: u64,
        /// Flow after.
        after: u64,
    },
    /// Label of one node.
    NodeLabel {
        /// Canonical node index.
        node: usize,
        /// Label before.
        before: Option<i128>,
        /// Label after.
        after: Option<i128>,
    },
    /// The whole search order.
    SearchOrder {
        /// Order before.
        before: Vec<NodeId>,
        /// Order after.
        after: Vec<NodeId>,
    },
    /// The whole active path.
    ActivePath {
        /// Path before.
        before: Vec<ResidualArcId>,
        /// Path after.
        after: Vec<ResidualArcId>,
    },
    /// The whole remaining-divergence vector.
    RemainingDivergence {
        /// Vector before.
        before: Vec<i128>,
        /// Vector after.
        after: Vec<i128>,
    },
    /// One counter.
    Metric {
        /// Which counter.
        metric: FlowTraceMetricId,
        /// Value before.
        before: u128,
        /// Value after.
        after: u128,
    },
}

/// Identity and presentation of an event.
#[derive(Clone, Copy, Debug, PartialEq, Eq)]
pub struct FlowTraceEventMetadata {
    /// Stable event identity.
    pub catalog_id: &'static str,
    /// Coarsest level at which the event is shown.
    pub minimum_granularity: TraceGranularityV1,
    /// The pseudocode line the event realizes.
    pub pseudocode_line: &'static str,
}

/// One reversible transition.
#[derive(Clone, Debug, PartialEq, Eq)]
pub struct FlowTraceEvent {
    /// Stable event identity.
    pub catalog_id: String,
    /// Coarsest level at which the event is shown.
    pub minimum_granularity: TraceGranularityV1,
    /// The pseudocode line the event realizes.
    pub pseudocode_line: String,
    /// An optional labelled value.
    pub detail: Option<FlowTraceDetail>,
    /// Things the event points at.
    pub entity_refs: Vec<FlowTraceEntityRef>,
    /// Field changes from the before-state to the after-state.
    pub patches: Vec<FlowTracePatch>,
}

fn same_node_ids(a: &Vec<NodeId>, b: &Vec<NodeId>) -> (r: bool)
    ensures
        r ==> a@.len() == b@.len(),
        r == (node_keys(a@) == node_keys(b@)),
{
    if a.len() != b.len() {
        assert(node_keys(a@).len() != node_keys(b@).len());
        return false;
    }
    let mut i: usize = 0;
    while i < a.len()
        invariant
            i <= a@.len(),
            a@.len() == b@.len(),
            forall|j: int| 0 <= j < i ==> a@[j]@ == b@[j]@,
        decreases a@.len() - i,
    {
        if a[i].compare(&b[i]) != 0 {
            assert(node_keys(a@)[i as int] != node_keys(b@)[i as int]);
            return false;
        }
        i = i + 1;
    }
    assert(node_keys(a@) =~= node_keys(b@));
    true
}

fn same_arc_ids(a: &Vec<ResidualArcId>, b: &Vec<ResidualArcId>) -> (r: bool)
    ensures
        r ==> a@.len() == b@.len(),
        r == (arc_keys(a@) == arc_keys(b@)),
{
    if a.len() != b.len() {
        assert(arc_keys(a@).len() != arc_keys(b@).len());
        return false;
    }
    let mut i: usize = 0;
    while i < a.len()
        invariant
            i <= a@.len(),
            a@.len() == b@.len(),
            forall|j: int| 0 <= j < i ==> arc_key(a@[j]) == arc_key(b@[j]),
        decreases a@.len() - i,
    {
        if a[i].edge.as_usize() != b[i].edge.as_usize() || a[i].is_forward_exec() != b[i].is_forward_exec()
            || a[i].original.compare(&b[i].original) != 0 {
            assert(arc_keys(a@)[i as int] != arc_keys(b@)[i as int]);
            return false;
        }
        i = i + 1;
    }
    assert(arc_keys(a@) =~= arc_keys(b@));
    true
}

fn same_i128s(a: &Vec<i128>, b: &Vec<i128>) -> (r: bool)
    ensures
        r == (a@ == b@),
{
    if a.len() != b.len() {
        return false;
    }
    let mut i: usize = 0;
    while i < a.len()
        invariant
            i <= a@.len(),
            a@.len() == b@.len(),
            forall|j: int| 0 <= j < i ==> a@[j] == b@[j],
        decreases a@.len() - i,
    {
        if a[i] != b[i] {
            return false;
        }
        i = i + 1;
    }
    proof {
        assert(a@ =~= b@);
    }
    true
}

fn copy_node_ids(a: &Vec<NodeId>) -> (r: Vec<NodeId>)
    ensures
        r@.len() == a@.len(),
        forall|i: int| 0 <= i < a@.len() ==> (#[trigger] r@[i])@ == a@[i]@,
        node_keys(r@) == node_keys(a@),
{
    let mut r: Vec<NodeId> = Vec::new();
    let mut i: usize = 0;
    while i < a.len()
        invariant
            i <= a@.len(),
            r@.len() == i,
            forall|j: int| 0 <= j < i ==> (#[trigger] r@[j])@ == a@[j]@,
        decreases a@.len() - i,
    {
        r.push(a[i].duplicate());
        i = i + 1;
    }
    assert(node_keys(r@) =~= node_keys(a@));
    r
}

fn copy_arc_ids(a: &Vec<ResidualArcId>) -> (r: Vec<ResidualArcId>)
    ensures
        r@.len() == a@.len(),
        arc_keys(r@) == arc_keys(a@),
{
    let mut r: Vec<ResidualArcId> = Vec::new();
    let mut i: usize = 0;
    while i < a.len()
        invariant
            i <= a@.len(),
            r@.len() == i,
            forall|j: int| 0 <= j < i ==> arc_key(#[trigger] r@[j]) == arc_key(a@[j]),
        decreases a@.len() - i,
    {
        r.push(a[i].duplicate());
        i = i + 1;
    }
    assert(arc_keys(r@) =~= arc_keys(a@));
    r
}

fn copy_i128s(a: &Vec<i128>) -> (r: Vec<i128>)
    ensures
        r@ == a@,
{
    let mut r: Vec<i128> = Vec::new();
    let mut i: usize = 0;
    while i < a.len()
        invariant
            i <= a@.len(),
            r@ == a@.take(i as int),
        decreases a@.len() - i,
    {
        r.push(a[i]);
        proof {
            assert(a@.take(i + 1) =~= a@.take(i as int).push(a@[i as int]));
        }
        i = i + 1;
    }
    proof {
        assert(a@.take(i as int) =~= a@);
    }
    r
}

impl FlowTraceSnapshot {
    /// A field-by-field copy.
    pub fn duplicate(&self) -> (r: FlowTraceSnapshot)
        ensures
            r.flows@ == self.flows@,
            r.node_labels@ == self.node_labels@,
            r.remaining_divergence@ == self.remaining_divergence@,
            r.metrics == self.metrics,
            r.search_order@.len() == self.search_order@.len(),
            r.active_path@.len() == self.active_path@.len(),
            trace_view(r) == trace_view(*self),
    {
        let mut flows: Vec<u64> = Vec::new();
        let mut i: usize = 0;
        while i < self.flows.len()
            invariant
                i <= self.flows@.len(),
                flows@ == self.flows@.take(i as int),
            decreases self.flows@.len() - i,
        {
            flows.push(self.flows[i]);
            proof {
                assert(self.flows@.take(i + 1) =~= self.flows@.take(i as int).push(self.flows@[i as int]));
            }
            i = i + 1;
        }
        let mut labels: Vec<Option<i128>> = Vec::new();
        let mut j: usize = 0;
        while j < self.node_labels.len()
            invariant
                j <= self.node_labels@.len(),
                labels@ == self.node_labels@.take(j as int),
            decreases self.node_labels@.len() - j,
        {
            labels.push(self.node_labels[j]);
            proof {
                assert(self.node_labels@.take(j + 1) =~= self.node_labels@.take(j as int).push(self.node_labels@[j as int]));
            }
            j = j + 1;
        }
        proof {
            assert(self.flows@.take(i as int) =~= self.flows@);
            assert(self.node_labels@.take(j as int) =~= self.node_labels@);
        }
        FlowTraceSnapshot {
            flows,
            node_labels: labels,
            search_order: copy_node_ids(&self.search_order),
            active_path: copy_arc_ids(&self.active_path),
            remaining_divergence: copy_i128s(&self.remaining_divergence),
            metrics: self.metrics,
        }
    }

    /// The snapshot of an algorithm state: node positions become identities
    /// and `(edge, forward)` pairs become residual-arc identities.
    pub fn capture(
        g: &FlowNetwork,
        flows: &Vec<u64>,
        node_labels: Vec<Option<i128>>,
        search_order: &Vec<usize>,
        path: &Vec<(usize, bool)>,
        remaining: Vec<i128>,
        metrics: FlowTraceMetrics,
    ) -> (r: Result<FlowTraceSnapshot, FlowTraceError>)
        ensures
            r matches Ok(s) ==> s.flows@ == flows@ && s.metrics == metrics && s.search_order@.len() == search_order@.len()
                && s.active_path@.len() == path@.len() && s.node_labels@ == node_labels@ && s.remaining_divergence@ == remaining@,
    {
        let order = match node_ids(g, search_order) {
            Some(o) => o,
            None => return Err(FlowTraceError::MissingEntity),
        };
        let arcs = match arc_ids(g, path) {
            Some(a) => a,
            None => return Err(FlowTraceError::MissingEntity),
        };
        let mut f: Vec<u64> = Vec::new();
        let mut i: usize = 0;
        while i < flows.len()
            invariant
                i <= flows@.len(),
                f@ == flows@.take(i as int),
            decreases flows@.len() - i,
        {
            f.push(flows[i]);
            proof {
                assert(flows@.take(i + 1) =~= flows@.take(i as int).push(flows@[i as int]));
            }
            i = i + 1;
        }
        proof {
            assert(flows@.take(i as int) =~= flows@);
        }
        Ok(FlowTraceSnapshot { flows: f, node_labels, search_order: order, active_path: arcs, remaining_divergence: remaining, metrics })
    }
}

impl ResidualArcId {
    /// Whether the arc runs along its edge.
    pub fn is_forward_exec(&self) -> (r: bool)
        ensures
            r == self.is_forward(),
    {
        match self.direction {
            crate::residual::ResidualDirection::Forward => true,
            crate::residual::ResidualDirection::Reverse => false,
        }
    }

    /// A copy with the same edge and direction.
    pub fn duplicate(&self) -> (r: ResidualArcId)
        ensures
            r.edge == self.edge,
            r.direction == self.direction,
            r.original@ == self.original@,
    {
        ResidualArcId { edge: self.edge, direction: self.direction, original: self.original.duplicate() }
    }
}

/// `x` is the identity of residual arc `a` of `g`.
pub open spec fn names_arc(g: FlowNetwork, x: ResidualArcId, a: (usize, bool)) -> bool {
    x.edge@ == a.0 && x.is_forward() == a.1 && x.original@ == g.edge_seq()[a.0 as int].id@
}

/// Identities of the given node positions, or `None` if one is out of range.
pub fn node_ids(g: &FlowNetwork, nodes: &Vec<usize>) -> (r: Option<Vec<NodeId>>)
    ensures
        r is Some <==> forall|i: int| 0 <= i < nodes@.len() ==> #[trigger] nodes@[i] < g.n(),
        r matches Some(v) ==> v@.len() == nodes@.len()
            && forall|i: int| 0 <= i < nodes@.len() ==> (#[trigger] v@[i])@ == g.node_seq()[nodes@[i] as int].id@,
{
    let mut out: Vec<NodeId> = Vec::new();
    let mut i: usize = 0;
    while i < nodes.len()
        invariant
            i <= nodes@.len(),
            out@.len() == i,
            forall|j: int| 0 <= j < i ==> #[trigger] nodes@[j] < g.n(),
            forall|j: int| 0 <= j < i ==> (#[trigger] out@[j])@ == g.node_seq()[nodes@[j] as int].id@,
        decreases nodes@.len() - i,
    {
        let v = nodes[i];
        if v >= g.nodes().len() {
            return None;
        }
        out.push(g.nodes()[v].id.duplicate());
        i = i + 1;
    }
    Some(out)
}

/// Identities of the given residual arcs, or `None` if one is out of range.
pub fn arc_ids(g: &FlowNetwork, arcs: &Vec<(usize, bool)>) -> (r: Option<Vec<ResidualArcId>>)
    ensures
        r is Some <==> forall|i: int| 0 <= i < arcs@.len() ==> (#[trigger] arcs@[i]).0 < g.m(),
        r matches Some(v) ==> v@.len() == arcs@.len()
            && forall|i: int| 0 <= i < arcs@.len() ==> names_arc(*g, #[trigger] v@[i], arcs@[i]),
{
    let mut out: Vec<ResidualArcId> = Vec::new();
    let mut i: usize = 0;
    while i < arcs.len()
        invariant
            i <= arcs@.len(),
            out@.len() == i,
            forall|j: int| 0 <= j < i ==> (#[trigger] arcs@[j]).0 < g.m(),
            forall|j: int| 0 <= j < i ==> names_arc(*g, #[trigger] out@[j], arcs@[j]),
        decreases arcs@.len() - i,
    {
        let a = arcs[i];
        if a.0 >= g.edges().len() {
            return None;
        }
        out.push(ResidualArcId::new(g, a.0, a.1));
        i = i + 1;
    }
    Some(out)
}

/// `x` refers to residual arc `a` of `g` and `y` to its edge.
pub open spec fn arc_and_edge_refs(g: FlowNetwork, x: FlowTraceEntityRef, y: FlowTraceEntityRef, a: (usize, bool)) -> bool {
    &&& x matches FlowTraceEntityRef::ResidualArc(id) && names_arc(g, id, a)
    &&& y matches FlowTraceEntityRef::Edge(e) && e@ == g.edge_seq()[a.0 as int].id@
}

/// Entity references of residual arcs: each arc and its original edge.
pub fn residual_arc_entity_refs(g: &FlowNetwork, arcs: &Vec<(usize, bool)>) -> (r: Result<Vec<FlowTraceEntityRef>, FlowTraceError>)
    ensures
        r is Ok <==> forall|i: int| 0 <= i < arcs@.len() ==> (#[trigger] arcs@[i]).0 < g.m(),
        r matches Ok(v) ==> v@.len() == 2 * arcs@.len()
            && forall|i: int| 0 <= i < arcs@.len() ==> arc_and_edge_refs(*g, v@[2 * i], v@[2 * i + 1], #[trigger] arcs@[i]),
{
    let mut out: Vec<FlowTraceEntityRef> = Vec::new();
    let mut i: usize = 0;
    while i < arcs.len()
        invariant
            i <= arcs@.len(),
            out@.len() == 2 * i,
            forall|j: int| 0 <= j < i ==> (#[trigger] arcs@[j]).0 < g.m(),
            forall|j: int| 0 <= j < i ==> arc_and_edge_refs(*g, out@[2 * j], out@[2 * j + 1], #[trigger] arcs@[j]),
        decreases arcs@.len() - i,
    {
        let a = arcs[i];
        if a.0 >= g.edges().len() {
            return Err(FlowTraceError::MissingEntity);
        }
        out.push(FlowTraceEntityRef::ResidualArc(ResidualArcId::new(g, a.0, a.1)));
        out.push(FlowTraceEntityRef::Edge(g.edges()[a.0].id.duplicate()));
        i = i + 1;
    }
    Ok(out)
}

/// Entity references of residual arcs alone.
pub fn residual_arc_refs(g: &FlowNetwork, arcs: &Vec<(usize, bool)>) -> (r: Result<Vec<FlowTraceEntityRef>, FlowTraceError>)
    ensures
        r is Ok <==> forall|i: int| 0 <= i < arcs@.len() ==> (#[trigger] arcs@[i]).0 < g.m(),
        r matches Ok(v) ==> v@.len() == arcs@.len()
            && forall|i: int| 0 <= i < arcs@.len() ==> (#[trigger] v@[i] matches FlowTraceEntityRef::ResidualArc(id) && names_arc(*g, id, arcs@[i])),
{
    let mut out: Vec<FlowTraceEntityRef> = Vec::new();
    let mut i: usize = 0;
    while i < arcs.len()
        invariant
            i <= arcs@.len(),
            out@.len() == i,
            forall|j: int| 0 <= j < i ==> (#[trigger] arcs@[j]).0 < g.m(),
            forall|j: int| 0 <= j < i ==> (#[trigger] out@[j] matches FlowTraceEntityRef::ResidualArc(id) && names_arc(*g, id, arcs@[j])),
        decreases arcs@.len() - i,
    {
        let a = arcs[i];
        if a.0 >= g.edges().len() {
            return Err(FlowTraceError::MissingEntity);
        }
        out.push(FlowTraceEntityRef::ResidualArc(ResidualArcId::new(g, a.0, a.1)));
        i = i + 1;
    }
    Ok(out)
}

/// Records one event on `recorder`, if there is one, from an algorithm's view.
pub fn record_view(
    recorder: &mut Option<FlowTraceRecorder>,
    g: &FlowNetwork,
    flows: &Vec<u64>,
    metrics: FlowTraceMetrics,
    metadata: FlowTraceEventMetadata,
    labels: Vec<Option<i128>>,
    order: &Vec<usize>,
    path: &Vec<(usize, bool)>,
    remaining: Vec<i128>,
    detail: Option<(&'static str, i128)>,
    focus: Vec<FlowTraceEntityRef>,
) -> (r: Result<(), FlowTraceError>)
    ensures
        (*old(recorder)) is None ==> r is Ok && (*final(recorder)) is None,
        (*old(recorder)) matches Some(before) ==> (*final(recorder)) matches Some(after) && recorded_state(before, after, r, flows@, labels@, remaining@, metrics),
{
    match recorder {
        Some(rec) => {
            let snapshot = FlowTraceSnapshot::capture(g, flows, labels, order, path, remaining, metrics)?;
            rec.record_transition_with_detail_and_focus(metadata, &snapshot, detail, focus)
        },
        None => Ok(()),
    }
}

/// `x` refers to node `v` of `g`.
pub open spec fn names_node_at(g: FlowNetwork, x: FlowTraceEntityRef, v: int) -> bool {
    x matches FlowTraceEntityRef::Node(id) && id@ == g.node_seq()[v].id@
}

/// What one recording did: on success one more event, reaching a state with
/// the given flows, labels, remaining divergence and counters; on failure
/// nothing.
pub open spec fn recorded_state(
    before: FlowTraceRecorder,
    after: FlowTraceRecorder,
    r: Result<(), FlowTraceError>,
    flows: Seq<u64>,
    labels: Seq<Option<i128>>,
    remaining: Seq<i128>,
    metrics: FlowTraceMetrics,
) -> bool {
    &&& r is Ok ==> {
        &&& after.event_count() == before.event_count() + 1
        &&& after.current_state().0 == flows
        &&& after.current_state().1 == labels
        &&& after.current_state().4 == remaining
        &&& after.current_state().5 == metrics
    }
    &&& r is Err ==> after == before
}

/// Entity reference of a node.
pub fn node_entity_ref(g: &FlowNetwork, v: usize) -> (r: Result<FlowTraceEntityRef, FlowTraceError>)
    ensures
        r is Ok <==> v < g.n(),
        r matches Ok(x) ==> names_node_at(*g, x, v as int),
{
    if v >= g.nodes().len() {
        return Err(FlowTraceError::MissingEntity);
    }
    Ok(FlowTraceEntityRef::Node(g.nodes()[v].id.duplicate()))
}

/// Nodes visited along a residual path: the first tail, then every head.
pub fn residual_path_node_order(g: &FlowNetwork, path: &Vec<(usize, bool)>) -> (r: Result<Vec<usize>, FlowTraceError>)
    ensures
        r matches Ok(v) ==> (path@.len() == 0 ==> v@.len() == 0) && (path@.len() > 0 ==> v@.len() == path@.len() + 1),
{
    let mut out: Vec<usize> = Vec::new();
    if path.len() == 0 {
        return Ok(out);
    }
    let first = path[0];
    if first.0 >= g.edges().len() {
        return Err(FlowTraceError::MissingEntity);
    }
    out.push(crate::residual::tail(g, first.0, first.1));
    let mut i: usize = 0;
    while i < path.len()
        invariant
            i <= path@.len(),
            out@.len() == i + 1,
        decreases path@.len() - i,
    {
        let a = path[i];
        if a.0 >= g.edges().len() {
            return Err(FlowTraceError::MissingEntity);
        }
        out.push(crate::residual::head(g, a.0, a.1));
        i = i + 1;
    }
    Ok(out)
}

/// Whether two flow vectors are equal.
pub fn same_u64s(a: &Vec<u64>, b: &Vec<u64>) -> (r: bool)
    ensures
        r == (a@ == b@),
{
    if a.len() != b.len() {
        return false;
    }
    let mut i: usize = 0;
    while i < a.len()
        invariant
            i <= a@.len(),
            a@.len() == b@.len(),
            forall|j: int| 0 <= j < i ==> a@[j] == b@[j],
        decreases a@.len() - i,
    {
        if a[i] != b[i] {
            return false;
        }
        i = i + 1;
    }
    proof {
        assert(a@ =~= b@);
    }
    true
}

fn same_labels(a: &Vec<Option<i128>>, b: &Vec<Option<i128>>) -> (r: bool)
    ensures
        r == (a@ == b@),
{
    if a.len() != b.len() {
        return false;
    }
    let mut i: usize = 0;
    while i < a.len()
        invariant
            i <= a@.len(),
            a@.len() == b@.len(),
            forall|j: int| 0 <= j < i ==> a@[j] == b@[j],
        decreases a@.len() - i,
    {
        if a[i] != b[i] {
            return false;
        }
        i = i + 1;
    }
    proof {
        assert(a@ =~= b@);
    }
    true
}

/// Whether two snapshots agree field by field (identities by their bytes).
pub fn snapshots_equal(a: &FlowTraceSnapshot, b: &FlowTraceSnapshot) -> (r: bool)
    ensures
        r ==> a.flows@ == b.flows@ && a.node_labels@ == b.node_labels@ && a.remaining_divergence@ == b.remaining_divergence@,
{
    if !same_u64s(&a.flows, &b.flows) || !same_labels(&a.node_labels, &b.node_labels)
        || !same_node_ids(&a.search_order, &b.search_order) || !same_arc_ids(&a.active_path, &b.active_path)
        || !same_i128s(&a.remaining_divergence, &b.remaining_divergence) {
        return false;
    }
    let ids = metric_ids();
    let mut i: usize = 0;
    while i < ids.len()
        invariant
            i <= ids@.len(),
            a.flows@ == b.flows@,
            a.node_labels@ == b.node_labels@,
            a.remaining_divergence@ == b.remaining_divergence@,
        decreases ids@.len() - i,
    {
        if a.metrics.get(ids[i]) != b.metrics.get(ids[i]) {
            return false;
        }
        i = i + 1;
    }
    true
}

proof fn lemma_prefix_ignores_later(v: TraceView, ps: Seq<FlowTracePatch>, p: FlowTracePatch, k: int, forward: bool)
    requires
        0 <= k <= ps.len(),
    ensures
        patches_step(v, ps.push(p), k, forward) == patches_step(v, ps, k, forward),
    decreases k,
{
    if k > 0 {
        lemma_prefix_ignores_later(v, ps, p, k - 1, forward);
        assert(ps.push(p)[k - 1] == ps[k - 1]);
    }
}

proof fn lemma_push_distinct(ps: Seq<FlowTracePatch>, p: FlowTracePatch)
    requires
        distinct_fields(ps),
        forall|i: int| 0 <= i < ps.len() ==> patch_field(#[trigger] ps[i]) != patch_field(p),
    ensures
        distinct_fields(ps.push(p)),
        forall|i: int| 0 <= i < ps.len() ==> #[trigger] ps.push(p)[i] == ps[i],
        ps.push(p)[ps.len() as int] == p,
{
    let q = ps.push(p);
    assert forall|i: int, j: int| 0 <= i < q.len() && 0 <= j < q.len() && i != j implies patch_field(#[trigger] q[i]) != patch_field(#[trigger] q[j]) by {
        if i < ps.len() && j < ps.len() {
            assert(q[i] == ps[i] && q[j] == ps[j]);
        } else if i < ps.len() {
            assert(q[i] == ps[i]);
        } else {
            assert(q[j] == ps[j]);
        }
    }
}

proof fn lemma_push_patch(v: TraceView, ps: Seq<FlowTracePatch>, p: FlowTracePatch, cur: TraceView)
    requires
        patches_step(v, ps, ps.len() as int, true) == Some(cur),
        patch_step(cur, p, true) is Some,
    ensures
        patches_step(v, ps.push(p), ps.len() + 1int, true) == patch_step(cur, p, true),
{
    lemma_prefix_ignores_later(v, ps, p, ps.len() as int, true);
    assert(ps.push(p)[ps.len() as int] == p);
}

/// The patches turning `a` into `b`: the differing flows and labels in
/// position order, then the search order, active path and remaining
/// divergence if they differ, then the differing counters.  Replayed forward
/// from `a` they give `b`, and no two of them change the same field.
pub fn diff(a: &FlowTraceSnapshot, b: &FlowTraceSnapshot) -> (r: Result<Vec<FlowTracePatch>, FlowTraceError>)
    ensures
        r is Err <==> (a.flows@.len() != b.flows@.len() || a.node_labels@.len() != b.node_labels@.len()),
        r is Err ==> r == Err::<Vec<FlowTracePatch>, FlowTraceError>(FlowTraceError::Shape),
        r matches Ok(ps) ==> distinct_fields(ps@) && patches_step(trace_view(*a), ps@, ps@.len() as int, true) == Some(trace_view(*b)),
{
    if a.flows.len() != b.flows.len() || a.node_labels.len() != b.node_labels.len() {
        return Err(FlowTraceError::Shape);
    }
    let ghost va = trace_view(*a);
    let ghost vb = trace_view(*b);
    let ghost mut cur = va;
    let mut patches: Vec<FlowTracePatch> = Vec::new();
    let mut k: usize = 0;
    while k < a.flows.len()
        invariant
            k <= a.flows@.len(),
            a.flows@.len() == b.flows@.len(),
            va == trace_view(*a),
            vb == trace_view(*b),
            patches_step(va, patches@, patches@.len() as int, true) == Some(cur),
            distinct_fields(patches@),
            forall|i: int| 0 <= i < patches@.len() ==> patch_field(#[trigger] patches@[i]).0 == 0 && patch_field(patches@[i]).1 < k,
            cur.0 == Seq::new(a.flows@.len(), |e: int| if e < k { b.flows@[e] } else { a.flows@[e] }),
            cur.1 == va.1,
            cur.2 == va.2,
            cur.3 == va.3,
            cur.4 == va.4,
            cur.5 == va.5,
        decreases a.flows@.len() - k,
    {
        if a.flows[k] != b.flows[k] {
            let p = FlowTracePatch::EdgeFlow { edge: k, before: a.flows[k], after: b.flows[k] };
            proof {
                lemma_push_patch(va, patches@, p, cur);
                lemma_push_distinct(patches@, p);
                cur = patch_step(cur, p, true).unwrap();
            }
            patches.push(p);
        }
        proof {
            assert(cur.0 =~= Seq::new(a.flows@.len(), |e: int| if e < k + 1 { b.flows@[e] } else { a.flows@[e] }));
        }
        k = k + 1;
    }
    proof {
        assert(cur.0 =~= vb.0);
    }
    let mut v: usize = 0;
    while v < a.node_labels.len()
        invariant
            v <= a.node_labels@.len(),
            a.node_labels@.len() == b.node_labels@.len(),
            va == trace_view(*a),
            vb == trace_view(*b),
            patches_step(va, patches@, patches@.len() as int, true) == Some(cur),
            distinct_fields(patches@),
            forall|i: int| 0 <= i < patches@.len() ==> {
                let f = patch_field(#[trigger] patches@[i]);
                f.0 == 0 || (f.0 == 1 && f.1 < v)
            },
            cur.0 == vb.0,
            cur.1 == Seq::new(a.node_labels@.len(), |x: int| if x < v { b.node_labels@[x] } else { a.node_labels@[x] }),
            cur.2 == va.2,
            cur.3 == va.3,
            cur.4 == va.4,
            cur.5 == va.5,
        decreases a.node_labels@.len() - v,
    {
        if a.node_labels[v] != b.node_labels[v] {
            let p = FlowTracePatch::NodeLabel { node: v, before: a.node_labels[v], after: b.node_labels[v] };
            proof {
                lemma_push_patch(va, patches@, p, cur);
                lemma_push_distinct(patches@, p);
                cur = patch_step(cur, p, true).unwrap();
            }
            patches.push(p);
        }
        proof {
            assert(cur.1 =~= Seq::new(a.node_labels@.len(), |x: int| if x < v + 1 { b.node_labels@[x] } else { a.node_labels@[x] }));
        }
        v = v + 1;
    }
    proof {
        assert(cur.1 =~= vb.1);
    }
    if !same_node_ids(&a.search_order, &b.search_order) {
        let p = FlowTracePatch::SearchOrder { before: copy_node_ids(&a.search_order), after: copy_node_ids(&b.search_order) };
        proof {
            lemma_push_patch(va, patches@, p, cur);
            lemma_push_distinct(patches@, p);
            cur = patch_step(cur, p, true).unwrap();
        }
        patches.push(p);
    }
    assert(cur.2 == vb.2);
    assert(forall|i: int| 0 <= i < patches@.len() ==> patch_field(#[trigger] patches@[i]).0 <= 2);
    if !same_arc_ids(&a.active_path, &b.active_path) {
        let p = FlowTracePatch::ActivePath { before: copy_arc_ids(&a.active_path), after: copy_arc_ids(&b.active_path) };
        proof {
            lemma_push_patch(va, patches@, p, cur);
            lemma_push_distinct(patches@, p);
            cur = patch_step(cur, p, true).unwrap();
        }
        patches.push(p);
    }
    assert(cur.3 == vb.3);
    assert(forall|i: int| 0 <= i < patches@.len() ==> patch_field(#[trigger] patches@[i]).0 <= 3);
    if !same_i128s(&a.remaining_divergence, &b.remaining_divergence) {
        let p = FlowTracePatch::RemainingDivergence {
            before: copy_i128s(&a.remaining_divergence),
            after: copy_i128s(&b.remaining_divergence),
        };
        proof {
            lemma_push_patch(va, patches@, p, cur);
            lemma_push_distinct(patches@, p);
            cur = patch_step(cur, p, true).unwrap();
        }
        patches.push(p);
    }
    assert(cur.4 == vb.4);
    assert(forall|i: int| 0 <= i < patches@.len() ==> patch_field(#[trigger] patches@[i]).0 <= 4);
    let ids = metric_ids();
    let mut i: usize = 0;
    while i < ids.len()
        invariant
            i <= ids@.len(),
            ids@.len() == 16,
            forall|j: int| 0 <= j < 16 ==> metric_index(#[trigger] ids@[j]) == j,
            va == trace_view(*a),
            vb == trace_view(*b),
            patches_step(va, patches@, patches@.len() as int, true) == Some(cur),
            distinct_fields(patches@),
            forall|j: int| 0 <= j < patches@.len() ==> {
                let f = patch_field(#[trigger] patches@[j]);
                f.0 <= 4 || (f.0 == 5 && f.1 < i)
            },
            cur.0 == vb.0,
            cur.1 == vb.1,
            cur.2 == vb.2,
            cur.3 == vb.3,
            cur.4 == vb.4,
            forall|id: FlowTraceMetricId| #[trigger] metric_value(cur.5, id) == if metric_index(id) < i { metric_value(b.metrics, id) } else { metric_value(a.metrics, id) },
        decreases ids@.len() - i,
    {
        let id = ids[i];
        let x = a.metrics.get(id);
        let y = b.metrics.get(id);
        if x != y {
            let p = FlowTracePatch::Metric { metric: id, before: x, after: y };
            proof {
                lemma_push_patch(va, patches@, p, cur);
                lemma_push_distinct(patches@, p);
                lemma_metrics_with(cur.5, id, y);
                cur = patch_step(cur, p, true).unwrap();
                assert forall|other: FlowTraceMetricId| #[trigger] metric_value(cur.5, other) == if metric_index(other) < i + 1 { metric_value(b.metrics, other) } else { metric_value(a.metrics, other) } by {
                    if other != id {
                        assert(metric_index(other) != metric_index(id));
                    }
                }
            }
            patches.push(p);
        } else {
            proof {
                assert forall|other: FlowTraceMetricId| #[trigger] metric_value(cur.5, other) == if metric_index(other) < i + 1 { metric_value(b.metrics, other) } else { metric_value(a.metrics, other) } by {
                    if metric_index(other) == i {
                        assert(other == id);
                    }
                }
            }
        }
        i = i + 1;
    }
    proof {
        assert forall|id: FlowTraceMetricId| #[trigger] metric_value(cur.5, id) == metric_value(vb.5, id) by {
            assert(metric_index(id) < 16);
        }
        lemma_metrics_ext(cur.5, vb.5);
        assert(cur == vb);
    }
    Ok(patches)
}

proof fn lemma_failure_persists(v: TraceView, ps: Seq<FlowTracePatch>, k: int, n: int, forward: bool)
    requires
        0 <= k <= n,
        patches_step(v, ps, k, forward) is None,
    ensures
        patches_step(v, ps, n, forward) is None,
    decreases n - k,
{
    if k < n {
        lemma_failure_persists(v, ps, k, n - 1, forward);
    }
}

/// Replays one event on a snapshot in the given direction: each patch in
/// order must find its starting value and installs its ending value.  On a
/// mismatch the snapshot may be partially patched.
pub fn apply_trace_event(g: &FlowNetwork, snapshot: &mut FlowTraceSnapshot, event: &FlowTraceEvent, direction: FlowTraceDirection) -> (r: Result<(), FlowTraceError>)
    ensures
        r == Err::<(), FlowTraceError>(FlowTraceError::Shape) <==> (old(snapshot).flows@.len() != g.m() || old(snapshot).node_labels@.len() != g.n()),
        r is Ok <==> (old(snapshot).flows@.len() == g.m() && old(snapshot).node_labels@.len() == g.n()
            && patches_step(trace_view(*old(snapshot)), event.patches@, event.patches@.len() as int, direction == FlowTraceDirection::Forward) is Some),
        r is Ok ==> patches_step(trace_view(*old(snapshot)), event.patches@, event.patches@.len() as int, direction == FlowTraceDirection::Forward) == Some(trace_view(*final(snapshot))),
        r is Err ==> r == Err::<(), FlowTraceError>(FlowTraceError::Shape) || r == Err::<(), FlowTraceError>(FlowTraceError::Mismatch),
        r is Ok ==> final(snapshot).flows@.len() == old(snapshot).flows@.len() && final(snapshot).node_labels@.len() == old(snapshot).node_labels@.len(),
{
    if snapshot.flows.len() != g.edges().len() || snapshot.node_labels.len() != g.nodes().len() {
        return Err(FlowTraceError::Shape);
    }
    let forward = match direction {
        FlowTraceDirection::Forward => true,
        FlowTraceDirection::Reverse => false,
    };
    let ghost v0 = trace_view(*snapshot);
    let ghost ps = event.patches@;
    let ghost n = ps.len() as int;
    let mut i: usize = 0;
    while i < event.patches.len()
        invariant
            i <= event.patches@.len(),
            ps == event.patches@,
            n == ps.len(),
            forward == (direction == FlowTraceDirection::Forward),
            v0 == trace_view(*old(snapshot)),
            old(snapshot).flows@.len() == g.m(),
            old(snapshot).node_labels@.len() == g.n(),
            patches_step(v0, ps, i as int, forward) == Some(trace_view(*snapshot)),
            snapshot.flows@.len() == old(snapshot).flows@.len(),
            snapshot.node_labels@.len() == old(snapshot).node_labels@.len(),
        decreases event.patches@.len() - i,
    {
        let ghost before_view = trace_view(*snapshot);
        match &event.patches[i] {
            FlowTracePatch::EdgeFlow { edge, before, after } => {
                let (from, to) = if forward { (*before, *after) } else { (*after, *before) };
                if *edge >= snapshot.flows.len() || snapshot.flows[*edge] != from {
                    proof {
                        lemma_failure_persists(v0, ps, i + 1, n, forward);
                    }
                    return Err(FlowTraceError::Mismatch);
                }
                snapshot.flows.set(*edge, to);
            },
            FlowTracePatch::NodeLabel { node, before, after } => {
                let (from, to) = if forward { (*before, *after) } else { (*after, *before) };
                if *node >= snapshot.node_labels.len() || snapshot.node_labels[*node] != from {
                    proof {
                        lemma_failure_persists(v0, ps, i + 1, n, forward);
                    }
                    return Err(FlowTraceError::Mismatch);
                }
                snapshot.node_labels.set(*node, to);
            },
            FlowTracePatch::SearchOrder { before, after } => {
                let (from, to) = if forward { (before, after) } else { (after, before) };
                if !same_node_ids(&snapshot.search_order, from) {
                    proof {
                        lemma_failure_persists(v0, ps, i + 1, n, forward);
                    }
                    return Err(FlowTraceError::Mismatch);
                }
                snapshot.search_order = copy_node_ids(to);
            },
            FlowTracePatch::ActivePath { before, after } => {
                let (from, to) = if forward { (before, after) } else { (after, before) };
                if !same_arc_ids(&snapshot.active_path, from) {
                    proof {
                        lemma_failure_persists(v0, ps, i + 1, n, forward);
                    }
                    return Err(FlowTraceError::Mismatch);
                }
                snapshot.active_path = copy_arc_ids(to);
            },
            FlowTracePatch::RemainingDivergence { before, after } => {
                let (from, to) = if forward { (before, after) } else { (after, before) };
                if !same_i128s(&snapshot.remaining_divergence, from) {
                    proof {
                        lemma_failure_persists(v0, ps, i + 1, n, forward);
                    }
                    return Err(FlowTraceError::Mismatch);
                }
                snapshot.remaining_divergence = copy_i128s(to);
            },
            FlowTracePatch::Metric { metric, before, after } => {
                let (from, to) = if forward { (*before, *after) } else { (*after, *before) };
                if snapshot.metrics.get(*metric) != from {
                    proof {
                        lemma_failure_persists(v0, ps, i + 1, n, forward);
                    }
                    return Err(FlowTraceError::Mismatch);
                }
                snapshot.metrics.set(*metric, to);
            },
        }
        proof {
            assert(trace_view(*snapshot) =~~= patch_step(before_view, ps[i as int], forward).unwrap());
        }
        i = i + 1;
    }
    Ok(())
}

/// Collects events as patches between consecutive snapshots.
pub struct FlowTraceRecorder {
    base: FlowTraceSnapshot,
    current: FlowTraceSnapshot,
    events: Vec<FlowTraceEvent>,
}

impl FlowTraceRecorder {
    /// The recorded events replay from the base to the current state.
    #[verifier::type_invariant]
    spec fn replays(self) -> bool {
        trace_replays(trace_view(self.base), self.events@, trace_view(self.current))
    }

    /// Number of events recorded so far.
    pub closed spec fn event_count(&self) -> nat {
        self.events@.len()
    }

    /// The state that the recorded events reach.
    pub closed spec fn current_state(&self) -> TraceView {
        trace_view(self.current)
    }

    /// Starts a trace at `snapshot`, whose shape must match the network.
    pub fn new(g: &FlowNetwork, snapshot: FlowTraceSnapshot) -> (r: Result<FlowTraceRecorder, FlowTraceError>)
        ensures
            r is Ok <==> snapshot.flows@.len() == g.m() && snapshot.node_labels@.len() == g.n(),
    {
        if snapshot.flows.len() != g.edges().len() || snapshot.node_labels.len() != g.nodes().len() {
            return Err(FlowTraceError::Shape);
        }
        let current = snapshot.duplicate();
        Ok(FlowTraceRecorder { base: snapshot, current, events: Vec::new() })
    }

    /// Number of events recorded so far.
    pub fn len(&self) -> (r: usize)
        ensures
            r == self.event_count(),
    {
        self.events.len()
    }

    /// Records the transition from the current state to `snapshot`.
    pub fn record_transition_with_detail_and_focus(
        &mut self,
        metadata: FlowTraceEventMetadata,
        snapshot: &FlowTraceSnapshot,
        detail: Option<(&'static str, i128)>,
        focus: Vec<FlowTraceEntityRef>,
    ) -> (r: Result<(), FlowTraceError>)
        ensures
            r is Ok ==> final(self).event_count() == old(self).event_count() + 1,
            r is Ok ==> final(self).current_state() == trace_view(*snapshot),
            r is Err ==> *final(self) == *old(self),
    {
        proof {
            use_type_invariant(&*self);
        }
        let patches = match diff(&self.current, snapshot) {
            Ok(p) => p,
            Err(e) => return Err(e),
        };
        let detail = match detail {
            Some((label, value)) => Some(FlowTraceDetail { label: label.to_string(), value }),
            None => None,
        };
        let event = FlowTraceEvent {
            catalog_id: metadata.catalog_id.to_string(),
            minimum_granularity: metadata.minimum_granularity,
            pseudocode_line: metadata.pseudocode_line.to_string(),
            detail,
            entity_refs: focus,
            patches,
        };
        let next = snapshot.duplicate();
        let empty = FlowTraceSnapshot {
            flows: Vec::new(),
            node_labels: Vec::new(),
            search_order: Vec::new(),
            active_path: Vec::new(),
            remaining_divergence: Vec::new(),
            metrics: self.current.metrics,
        };
        let mut taken = FlowTraceRecorder { base: empty.duplicate(), current: empty, events: Vec::new() };
        std::mem::swap(self, &mut taken);
        proof {
            use_type_invariant(&taken);
        }
        let FlowTraceRecorder { base, current, mut events } = taken;
        let ghost old_events = events@;
        events.push(event);
        proof {
            let bv = trace_view(base);
            lemma_replay_through_push(bv, old_events, event, old_events.len() as int);
            assert(events@ == old_events.push(event));
            assert(events@[old_events.len() as int] == event);
            assert(forall|i: int| 0 <= i < old_events.len() ==> #[trigger] events@[i] == old_events[i]);
        }
        *self = FlowTraceRecorder { base, current: next, events };
        Ok(())
    }

    /// Records that one counter advanced by one, pointing at `entity`.
    pub fn record_metric_observation_with_detail(
        &mut self,
        metadata: FlowTraceEventMetadata,
        metric: FlowTraceMetricId,
        entity: FlowTraceEntityRef,
        detail: Option<(&'static str, i128)>,
    ) -> (r: Result<(), FlowTraceError>)
        ensures
            r is Ok ==> final(self).event_count() == old(self).event_count() + 1,
            r is Err ==> final(self).event_count() == old(self).event_count(),
    {
        let mut next = self.current.duplicate();
        let value = next.metrics.get(metric);
        if value == u128::MAX {
            return Err(FlowTraceError::Precondition);
        }
        next.metrics.set(metric, value + 1);
        let mut focus: Vec<FlowTraceEntityRef> = Vec::new();
        focus.push(entity);
        self.record_transition_with_detail_and_focus(metadata, &next, detail, focus)
    }

    /// The base snapshot, every event, and the final snapshot; the events
    /// replay forward from the base to the final snapshot.
    pub fn finish(self) -> (r: (FlowTraceSnapshot, Vec<FlowTraceEvent>, FlowTraceSnapshot))
        ensures
            r.1@.len() == self.event_count(),
            trace_replays(trace_view(r.0), r.1@, trace_view(r.2)),
    {
        proof {
            use_type_invariant(&self);
        }
        let FlowTraceRecorder { base, current, events } = self;
        (base, events, current)
    }
}

} // verus!
