//! Strongly-polynomial minimum-mean residual-cycle cancellation.
use vstd::prelude::*;

use crate::augmenting::{lemma_max_listed_bounds, max_listed, net_cost, path_cost, Arc, ArcNet};
use crate::certificate::{certified_min_cost, check_min_cost_flow, wide, CertificateError, MinCostFlowCertificate};
use crate::feasibility::{FeasibilityError, FeasibilityExecution, FeasibilityUse};
use crate::certificate::check_bounds;
use crate::flows::{feasible_flow, ints, within_bounds};
use crate::min_cost::{arcs_ok, none_labels, TraceParts};
use crate::mean_certificate::{
    cycle_has_mean, lemma_potentials_bound_cycle_means, mean_bounds_every_cycle, residual_cycle,
    shifted_cost_potentials, walk_cost,
};
use crate::augmenting::mirrors;
use crate::model::{FlowEdge, FlowNetwork};
use crate::residual::{count_true, lemma_count_true_bounds, lemma_count_true_set};
use crate::trace::{replayable, trace_replays, trace_view, 
    record_view, residual_arc_refs, FlowTraceError, FlowTraceEvent, FlowTraceEventMetadata,
    FlowTraceMetricId, FlowTraceMetrics, FlowTraceRecorder, FlowTraceSnapshot, TraceGranularityV1,
};

verus! {

/// Conservative interactive node limit for Karp minimum-mean selection.
pub const MINIMUM_MEAN_CYCLE_CANCELING_MAX_NODES: usize = 128;
/// Conservative interactive edge limit for Karp minimum-mean selection.
pub const MINIMUM_MEAN_CYCLE_CANCELING_MAX_EDGES: usize = 1_024;
/// Deterministic ceiling on canceled minimum-mean cycles.
pub const MINIMUM_MEAN_CYCLE_CANCELING_MAX_CYCLES: u64 = 10_000;
/// Deterministic ceiling on residual-arc inspections across all selectors.
pub const MINIMUM_MEAN_CYCLE_CANCELING_MAX_RESIDUAL_ARC_SCANS: u128 = 20_000_000;

/// Exact deterministic counters from minimum-mean cycle canceling.
#[derive(Clone, Copy, Debug, Default, Eq, PartialEq)]
pub struct MinimumMeanCycleCancelingMetrics {
    /// Complete all-component minimum-mean-cycle selections.
    pub mean_cycle_searches: u64,
    /// Karp dynamic-programming rounds over cyclic strong components.
    pub dynamic_programming_rounds: u64,
    /// Residual arcs inspected by SCC, Karp, and tight-cycle work.
    pub residual_arc_scans: u128,
    /// Minimum-mean negative residual cycles canceled.
    pub canceled_cycles: u64,
}

/// Certified canonical minimum-mean-cycle-canceling result.
#[derive(Clone, Debug, Eq, PartialEq)]
pub struct MinimumMeanCycleCancelingResult {
    /// Original-edge flows in canonical edge-ID order.
    pub flows: Vec<u64>,
    /// Independently reconstructed objective and dual certificate.
    pub certificate: MinCostFlowCertificate,
    /// Deterministic selector counters.
    pub metrics: MinimumMeanCycleCancelingMetrics,
}

/// Certified result with reversible selection and cancellation events.
#[derive(Clone, Debug, Eq, PartialEq)]
pub struct MinimumMeanCycleCancelingTraceResult {
    /// Same canonical result produced by the fast profile.
    pub result: MinimumMeanCycleCancelingResult,
    /// Replay boundary at the arbitrary feasible initial flow.
    pub base_snapshot: FlowTraceSnapshot,
    /// Canonical reversible event sequence.
    pub events: Vec<FlowTraceEvent>,
    /// Replay boundary after verified minimum-cost optimality.
    pub final_snapshot: FlowTraceSnapshot,
}

/// Minimum-mean cycle cancellation construction or verification failure.
#[derive(Clone, Copy, Debug, Eq, PartialEq)]
pub enum MinimumMeanCycleCancelingError {
    /// Input exceeds the practical Karp-selector admission band.
    AdmissionLimit,
    /// A deterministic cycle or residual-scan ceiling was reached.
    WorkLimit,
    /// No flow satisfies the requested balances and original bounds.
    Feasibility(FeasibilityError),
    /// The final independent primal/dual certificate failed.
    Certificate(CertificateError),
    /// Checked exact arithmetic exceeded its declared domain.
    ArithmeticOverflow,
    /// Karp's value, tight arcs, or reconstructed cycle disagreed.
    SelectorInvariant,
    /// Reversible trace construction contradicted algorithm state.
    Trace(FlowTraceError),
}

/// Too many nodes or edges for the Karp selector.
pub open spec fn mmcc_over_admission(g: FlowNetwork) -> bool {
    g.n() > MINIMUM_MEAN_CYCLE_CANCELING_MAX_NODES || g.m() > MINIMUM_MEAN_CYCLE_CANCELING_MAX_EDGES
}

/// An error that arises only after admission and the initial feasible flow.
pub open spec fn mmcc_late<T>(r: Result<T, MinimumMeanCycleCancelingError>) -> bool {
    r matches Err(e) ==> !(e is AdmissionLimit) && !(e is Feasibility)
}

type Mmcc = MinimumMeanCycleCancelingError;

type Metrics = MinimumMeanCycleCancelingMetrics;

fn fail<T>(e: Mmcc) -> (r: Result<T, Mmcc>)
    requires
        !(e is AdmissionLimit) && !(e is Feasibility),
    ensures
        r == Err::<T, Mmcc>(e),
        mmcc_late(r),
{
    Err(e)
}

/// An exact rational in lowest terms with a positive denominator.
#[derive(Clone, Copy, Debug, PartialEq, Eq)]
struct Rational {
    numerator: i128,
    denominator: u64,
}

/// Greatest common divisor, and 1 for two zeros.
fn gcd(left: u128, right: u128) -> (r: u128)
    ensures
        r >= 1,
{
    let mut a = left;
    let mut b = right;
    while b != 0
        decreases b,
    {
        let rem = a % b;
        a = b;
        b = rem;
    }
    if a == 0 { 1 } else { a }
}

fn rational_new(numerator: i128, denominator: usize) -> (r: Result<Rational, Mmcc>)
    ensures
        mmcc_late(r),
        !(r matches Err(Mmcc::WorkLimit)),
{
    if denominator == 0 {
        return fail(Mmcc::SelectorInvariant);
    }
    if numerator == i128::MIN {
        return fail(Mmcc::ArithmeticOverflow);
    }
    let magnitude: u128 = if numerator < 0 { (-numerator) as u128 } else { numerator as u128 };
    let d = denominator as u64;
    let divisor = gcd(magnitude, d as u128);
    if divisor > u64::MAX as u128 {
        return fail(Mmcc::ArithmeticOverflow);
    }
    let q = magnitude / divisor;
    assert(q <= magnitude) by (nonlinear_arith)
        requires
            divisor >= 1,
            q == magnitude / divisor,
    ;
    let value: i128 = if numerator < 0 { -(q as i128) } else { q as i128 };
    Ok(Rational { numerator: value, denominator: d / (divisor as u64) })
}

/// Sign of `a - b`: -1, 0 or 1.
fn rational_order(a: Rational, b: Rational) -> (r: Result<i8, Mmcc>)
    ensures
        mmcc_late(r),
        !(r matches Err(Mmcc::WorkLimit)),
        r matches Ok(x) ==> (x == -1 <==> a.numerator * b.denominator < b.numerator * a.denominator)
            && (x == 0 <==> a.numerator * b.denominator == b.numerator * a.denominator)
            && (x == 1 <==> a.numerator * b.denominator > b.numerator * a.denominator),
        r is Err <==> !(i128::MIN <= a.numerator * b.denominator <= i128::MAX && i128::MIN <= b.numerator * a.denominator <= i128::MAX),
        r is Err ==> r == Err::<i8, Mmcc>(Mmcc::ArithmeticOverflow),
{
    let left = match a.numerator.checked_mul(b.denominator as i128) {
        Some(x) => x,
        None => return fail(Mmcc::ArithmeticOverflow),
    };
    let right = match b.numerator.checked_mul(a.denominator as i128) {
        Some(x) => x,
        None => return fail(Mmcc::ArithmeticOverflow),
    };
    Ok(if left < right { -1 } else if left > right { 1 } else { 0 })
}

/// A positive residual arc with its endpoints and cost.
#[derive(Clone, Copy)]
struct REdge {
    arc: Arc,
    from: usize,
    to: usize,
    cost: i128,
}

spec fn redge_ok(net: &ArcNet, e: REdge) -> bool {
    &&& e.arc.0 < net.m()
    &&& e.from < net.n
    &&& e.to < net.n
}

spec fn redges_ok(net: &ArcNet, s: Seq<REdge>) -> bool {
    forall|i: int| 0 <= i < s.len() ==> redge_ok(net, #[trigger] s[i])
}

/// Canonical position of a residual arc: twice its edge, plus one when it
/// runs against the edge.
pub open spec fn key_of(a: Arc) -> int {
    a.0 * 2 + if a.1 { 0int } else { 1int }
}

/// The first `k` residual edges are in canonical order.
spec fn redges_sorted(s: Seq<REdge>, k: int) -> bool {
    forall|a: int, b: int| 0 <= a < b < k ==> key_of((#[trigger] s[a]).arc) <= key_of((#[trigger] s[b]).arc)
}

/// Canonical position of a residual arc: by edge, forward before reverse.
fn arc_key(a: Arc) -> (r: u128)
    ensures
        r == key_of(a),
{
    (a.0 as u128) * 2 + if a.1 { 0 } else { 1 }
}

fn meta(catalog_id: &'static str, minimum_granularity: TraceGranularityV1, pseudocode_line: &'static str) -> (r: FlowTraceEventMetadata)
    ensures
        r.catalog_id == catalog_id,
        r.minimum_granularity == minimum_granularity,
        r.pseudocode_line == pseudocode_line,
{
    FlowTraceEventMetadata { catalog_id, minimum_granularity, pseudocode_line }
}

/// Counts one residual-arc inspection and records it under its stage.
fn track_scan(
    metrics: &mut Metrics,
    recorder: &mut Option<FlowTraceRecorder>,
    graph: &FlowNetwork,
    arc: Arc,
    stage: &'static str,
) -> (r: Result<(), Mmcc>)
    ensures
        mmcc_late(r),
        final(metrics).canceled_cycles == old(metrics).canceled_cycles,
        final(metrics).residual_arc_scans <= old(metrics).residual_arc_scans + 1,
        r is Ok ==> final(metrics).residual_arc_scans == old(metrics).residual_arc_scans + 1,
        r == Err::<(), Mmcc>(Mmcc::WorkLimit) ==> final(metrics).residual_arc_scans > MINIMUM_MEAN_CYCLE_CANCELING_MAX_RESIDUAL_ARC_SCANS,
        r is Ok ==> *final(metrics) == (MinimumMeanCycleCancelingMetrics {
            residual_arc_scans: (old(metrics).residual_arc_scans + 1) as u128,
            ..*old(metrics)
        }),
        r is Ok ==> final(metrics).residual_arc_scans <= MINIMUM_MEAN_CYCLE_CANCELING_MAX_RESIDUAL_ARC_SCANS,
        r is Ok ==> ((*old(recorder)) is None ==> (*final(recorder)) is None),
        r is Ok ==> ((*old(recorder)) matches Some(before) ==> (*final(recorder)) matches Some(after)
            && after.event_count() == before.event_count() + 1),
{
    if metrics.residual_arc_scans == u128::MAX {
        return fail(Mmcc::ArithmeticOverflow);
    }
    metrics.residual_arc_scans = metrics.residual_arc_scans + 1;
    if metrics.residual_arc_scans > MINIMUM_MEAN_CYCLE_CANCELING_MAX_RESIDUAL_ARC_SCANS {
        return fail(Mmcc::WorkLimit);
    }
    match recorder {
        Some(rec) => {
            let ordinal = metrics.residual_arc_scans as i128;
            let mut one: Vec<Arc> = Vec::new();
            one.push(arc);
            let mut refs = match residual_arc_refs(graph, &one) {
                Ok(v) => v,
                Err(e) => return fail(Mmcc::Trace(e)),
            };
            let entity = match refs.pop() {
                Some(x) => x,
                None => return fail(Mmcc::Trace(FlowTraceError::MissingEntity)),
            };
            match rec.record_metric_observation_with_detail(
                meta("minimum-mean-cycle-canceling.inspect-residual-arc", TraceGranularityV1::Micro, "minimum-mean-cycle-canceling:inspect-residual-arc"),
                FlowTraceMetricId::ResidualArcScans,
                entity,
                Some((stage, ordinal)),
            ) {
                Ok(()) => Ok(()),
                Err(e) => fail(Mmcc::Trace(e)),
            }
        },
        None => Ok(()),
    }
}

/// Sorts residual arcs into canonical order.
fn sort_edges(net: &ArcNet, v: &mut Vec<REdge>)
    requires
        redges_ok(net, old(v)@),
    ensures
        redges_ok(net, final(v)@),
        final(v)@.len() == old(v)@.len(),
        final(v)@.to_multiset() == old(v)@.to_multiset(),
        redges_sorted(final(v)@, final(v)@.len() as int),
{
    let len = v.len();
    let ghost original = v@;
    if len == 0 {
        return;
    }
    let mut i: usize = 1;
    while i < len
        invariant
            1 <= i <= len,
            len == v@.len(),
            redges_ok(net, v@),
            v@.to_multiset() == original.to_multiset(),
            redges_sorted(v@, i as int),
        decreases len - i,
    {
        let mut j = i;
        while j > 0
            invariant
                j <= i < len,
                len == v@.len(),
                redges_ok(net, v@),
                v@.to_multiset() == original.to_multiset(),
                forall|a: int, b: int| 0 <= a < b <= i && a != j && b != j ==> key_of((#[trigger] v@[a]).arc) <= key_of((#[trigger] v@[b]).arc),
                forall|b: int| j < b <= i ==> key_of(v@[j as int].arc) <= key_of((#[trigger] v@[b]).arc),
            ensures
                len == v@.len(),
                redges_ok(net, v@),
                v@.to_multiset() == original.to_multiset(),
                redges_sorted(v@, i + 1),
            decreases j,
        {
            let left = v[j - 1];
            let right = v[j];
            if arc_key(left.arc) <= arc_key(right.arc) {
                proof {
                    assert forall|a: int, b: int| 0 <= a < b < i + 1 implies key_of((#[trigger] v@[a]).arc) <= key_of((#[trigger] v@[b]).arc) by {
                        if b == j && a < j - 1 {
                            assert(key_of(v@[a].arc) <= key_of(v@[j - 1].arc));
                        }
                    }
                }
                break;
            }
            let ghost before = v@;
            v.set(j - 1, right);
            v.set(j, left);
            proof {
                crate::ratio_cycle::lemma_swap_keeps_multiset(before, j as int);
                assert(v@ == before.update(j - 1, before[j as int]).update(j as int, before[j - 1]));
                assert forall|a: int, b: int| 0 <= a < b <= i && a != j - 1 && b != j - 1 implies key_of((#[trigger] v@[a]).arc) <= key_of((#[trigger] v@[b]).arc) by {
                    if b == j {
                        assert(key_of(before[a].arc) <= key_of(before[j - 1].arc));
                    } else if a == j {
                        assert(key_of(before[j - 1].arc) <= key_of(before[b].arc));
                    } else {
                        assert(v@[a] == before[a] && v@[b] == before[b]);
                    }
                }
                assert forall|b: int| j - 1 < b <= i implies key_of(v@[j - 1].arc) <= key_of((#[trigger] v@[b]).arc) by {
                    if b > j {
                        assert(key_of(before[j as int].arc) <= key_of(before[b].arc));
                    }
                }
            }
            j = j - 1;
        }
        i = i + 1;
    }
}

/// Every positive residual arc, inspected node by node, in canonical order.
fn collect_residual_edges(
    net: &ArcNet,
    flows: &Vec<u64>,
    metrics: &mut Metrics,
    recorder: &mut Option<FlowTraceRecorder>,
    graph: &FlowNetwork,
) -> (r: Result<Vec<REdge>, Mmcc>)
    requires
        net.wf(),
        net.bounded(flows@),
    ensures
        mmcc_late(r),
        r matches Ok(v) ==> redges_ok(net, v@),
        final(metrics).canceled_cycles == old(metrics).canceled_cycles,
        final(metrics).residual_arc_scans <= old(metrics).residual_arc_scans + net.n * max_listed(net, net.n as int),
        r matches Ok(v) ==> v@.len() <= net.n * max_listed(net, net.n as int),
        r == Err::<Vec<REdge>, Mmcc>(Mmcc::WorkLimit) ==> final(metrics).residual_arc_scans > MINIMUM_MEAN_CYCLE_CANCELING_MAX_RESIDUAL_ARC_SCANS,
{
    let n = net.n;
    let ghost d = max_listed(net, n as int);
    let ghost s0 = metrics.residual_arc_scans as int;
    proof {
        if n > 0 {
            lemma_max_listed_bounds(net, n as int, 0);
        }
    }
    let mut edges: Vec<REdge> = Vec::new();
    let mut v: usize = 0;
    while v < n
        invariant
            net.wf(),
            net.bounded(flows@),
            n == net.n,
            v <= n,
            redges_ok(net, edges@),
            metrics.canceled_cycles == old(metrics).canceled_cycles,
            d == max_listed(net, n as int),
            d >= 0,
            s0 == old(metrics).residual_arc_scans,
            edges@.len() + s0 <= metrics.residual_arc_scans,
            metrics.residual_arc_scans <= s0 + v * d,
        decreases n - v,
    {
        proof {
            lemma_max_listed_bounds(net, n as int, v as int);
            assert(v * d + d == (v + 1) * d) by (nonlinear_arith);
            assert((v + 1) * d <= n * d) by (nonlinear_arith)
                requires
                    v + 1 <= n,
                    d >= 0,
            ;
        }
        let arcs = &net.adj[v];
        let mut i: usize = 0;
        while i < arcs.len()
            invariant
                net.wf(),
                net.bounded(flows@),
                n == net.n,
                v < n,
                arcs == &net.adj@[v as int],
                i <= arcs@.len(),
                redges_ok(net, edges@),
                metrics.canceled_cycles == old(metrics).canceled_cycles,
                arcs@.len() <= d,
                d == max_listed(net, n as int),
                s0 == old(metrics).residual_arc_scans,
                edges@.len() + s0 <= metrics.residual_arc_scans,
                metrics.residual_arc_scans <= s0 + v * d + i,
                v * d + d == (v + 1) * d,
                (v + 1) * d <= n * d,
            decreases arcs@.len() - i,
        {
            let a = arcs[i];
            i = i + 1;
            if net.residual(flows, a) == 0 {
                continue;
            }
            assert(metrics.residual_arc_scans + 1 <= s0 + n * d);
            match track_scan(metrics, recorder, graph, a, "residual-inventory scan ordinal") {
                Ok(()) => {},
                Err(e) => {
                    assert(metrics.residual_arc_scans <= s0 + n * d);
                    return Err(e);
                },
            }
            edges.push(REdge { arc: a, from: v, to: net.head_of(a), cost: net.arc_cost(a) });
        }
        v = v + 1;
    }
    sort_edges(net, &mut edges);
    Ok(edges)
}

/// Sorted, duplicate-free copy of a list of node positions.
fn sorted_unique(v: &Vec<usize>, n: usize) -> (r: Vec<usize>)
    requires
        forall|i: int| 0 <= i < v@.len() ==> v@[i] < n,
    ensures
        forall|i: int| 0 <= i < r@.len() ==> r@[i] < n,
{
    let mut out: Vec<usize> = Vec::new();
    let mut x: usize = 0;
    while x < n
        invariant
            x <= n,
            forall|i: int| 0 <= i < out@.len() ==> out@[i] < n,
        decreases n - x,
    {
        let mut present = false;
        let mut i: usize = 0;
        while i < v.len()
            invariant
                i <= v@.len(),
            decreases v@.len() - i,
        {
            if v[i] == x {
                present = true;
            }
            i = i + 1;
        }
        if present {
            out.push(x);
        }
        x = x + 1;
    }
    out
}

spec fn lists_bounded(l: Seq<Vec<usize>>, n: int) -> bool {
    forall|u: int, i: int| 0 <= u < l.len() && 0 <= i < l[u]@.len() ==> #[trigger] l[u]@[i] < n
}

/// Neighbour lists of the residual arcs, forward (`outgoing`) or reversed.
fn neighbours(n: usize, edges: &Vec<REdge>, outgoing: bool) -> (r: Vec<Vec<usize>>)
    requires
        forall|i: int| 0 <= i < edges@.len() ==> (#[trigger] edges@[i]).from < n && edges@[i].to < n,
    ensures
        r@.len() == n,
        lists_bounded(r@, n as int),
{
    let mut out: Vec<Vec<usize>> = Vec::new();
    let mut u: usize = 0;
    while u < n
        invariant
            u <= n,
            out@.len() == u,
            lists_bounded(out@, n as int),
            forall|i: int| 0 <= i < edges@.len() ==> (#[trigger] edges@[i]).from < n && edges@[i].to < n,
        decreases n - u,
    {
        let mut raw: Vec<usize> = Vec::new();
        let mut i: usize = 0;
        while i < edges.len()
            invariant
                i <= edges@.len(),
                forall|j: int| 0 <= j < raw@.len() ==> raw@[j] < n,
                forall|j: int| 0 <= j < edges@.len() ==> (#[trigger] edges@[j]).from < n && edges@[j].to < n,
            decreases edges@.len() - i,
        {
            let e = edges[i];
            if outgoing && e.from == u {
                raw.push(e.to);
            } else if !outgoing && e.to == u {
                raw.push(e.from);
            }
            i = i + 1;
        }
        let list = sorted_unique(&raw, n);
        let ghost before = out@;
        out.push(list);
        proof {
            assert forall|w: int, j: int| 0 <= w < out@.len() && 0 <= j < out@[w]@.len() implies #[trigger] out@[w]@[j] < n by {
                if w < before.len() {
                    assert(out@[w] == before[w]);
                }
            }
        }
        u = u + 1;
    }
    out
}

/// First pass of Kosaraju: depth-first search recording finish order.
fn finish_dfs(node: usize, outgoing: &Vec<Vec<usize>>, visited: &mut Vec<bool>, finish: &mut Vec<usize>)
    requires
        node < old(visited)@.len(),
        !old(visited)@[node as int],
        outgoing@.len() == old(visited)@.len(),
        lists_bounded(outgoing@, old(visited)@.len() as int),
        forall|i: int| 0 <= i < old(finish)@.len() ==> old(finish)@[i] < old(visited)@.len(),
    ensures
        final(visited)@.len() == old(visited)@.len(),
        count_true(final(visited)@, final(visited)@.len() as int) > count_true(old(visited)@, old(visited)@.len() as int),
        forall|u: int| 0 <= u < old(visited)@.len() && old(visited)@[u] ==> final(visited)@[u],
        forall|i: int| 0 <= i < final(finish)@.len() ==> final(finish)@[i] < old(visited)@.len(),
    decreases old(visited)@.len() - count_true(old(visited)@, old(visited)@.len() as int),
{
    let n = visited.len();
    proof {
        lemma_count_true_set(visited@, node as int, n as int);
        lemma_count_true_bounds(visited@, n as int);
    }
    visited.set(node, true);
    let ghost entry = count_true(old(visited)@, n as int);
    let list = &outgoing[node];
    let mut i: usize = 0;
    while i < list.len()
        invariant
            n == visited@.len(),
            n == outgoing@.len(),
            list == &outgoing@[node as int],
            node < n,
            n == old(visited)@.len(),
            i <= list@.len(),
            lists_bounded(outgoing@, n as int),
            count_true(visited@, n as int) > entry,
            entry == count_true(old(visited)@, n as int),
            forall|u: int| 0 <= u < n && old(visited)@[u] ==> visited@[u],
            forall|j: int| 0 <= j < finish@.len() ==> finish@[j] < n,
        decreases list@.len() - i,
    {
        let nb = list[i];
        assert(nb < n) by {
            assert(outgoing@[node as int]@[i as int] < n);
        }
        if !visited[nb] {
            proof {
                lemma_count_true_bounds(visited@, n as int);
                assert(visited@.len() - count_true(visited@, visited@.len() as int) < old(visited)@.len() - count_true(old(visited)@, old(visited)@.len() as int));
                assert(visited@.len() - count_true(visited@, visited@.len() as int) >= 0);
            }
            finish_dfs(nb, outgoing, visited, finish);
        }
        i = i + 1;
    }
    finish.push(node);
}

/// Component number of every node: Kosaraju's second pass over the reversed
/// graph in reverse finish order.
fn component_ids(n: usize, outgoing: &Vec<Vec<usize>>, incoming: &Vec<Vec<usize>>) -> (r: Vec<usize>)
    requires
        outgoing@.len() == n,
        incoming@.len() == n,
        lists_bounded(outgoing@, n as int),
        lists_bounded(incoming@, n as int),
    ensures
        r@.len() == n,
{
    let mut visited: Vec<bool> = Vec::new();
    let mut comp: Vec<usize> = Vec::new();
    let mut v: usize = 0;
    while v < n
        invariant
            v <= n,
            visited@.len() == v,
            comp@.len() == v,
            forall|u: int| 0 <= u < v ==> !(#[trigger] visited@[u]),
        decreases n - v,
    {
        visited.push(false);
        comp.push(0);
        v = v + 1;
    }
    let mut finish: Vec<usize> = Vec::new();
    let mut start: usize = 0;
    while start < n
        invariant
            n == visited@.len(),
            n == outgoing@.len(),
            lists_bounded(outgoing@, n as int),
            start <= n,
            forall|j: int| 0 <= j < finish@.len() ==> finish@[j] < n,
        decreases n - start,
    {
        if !visited[start] {
            finish_dfs(start, outgoing, &mut visited, &mut finish);
        }
        start = start + 1;
    }
    let mut seen: Vec<bool> = Vec::new();
    let mut v: usize = 0;
    while v < n
        invariant
            v <= n,
            seen@.len() == v,
            forall|u: int| 0 <= u < v ==> !(#[trigger] seen@[u]),
        decreases n - v,
    {
        seen.push(false);
        v = v + 1;
    }
    let mut next_id: usize = 0;
    let mut k = finish.len();
    while k > 0
        invariant
            k <= finish@.len(),
            n == seen@.len(),
            n == comp@.len(),
            n == incoming@.len(),
            lists_bounded(incoming@, n as int),
            forall|j: int| 0 <= j < finish@.len() ==> finish@[j] < n,
            next_id <= finish@.len() - k,
        decreases k,
    {
        k = k - 1;
        let s = finish[k];
        if seen[s] {
            continue;
        }
        proof {
            lemma_count_true_set(seen@, s as int, n as int);
        }
        seen.set(s, true);
        let mut stack: Vec<usize> = Vec::new();
        stack.push(s);
        while stack.len() > 0
            invariant
                n == seen@.len(),
                n == comp@.len(),
                n == incoming@.len(),
                lists_bounded(incoming@, n as int),
                forall|j: int| 0 <= j < stack@.len() ==> stack@[j] < n,
            decreases 2 * (n - count_true(seen@, n as int)) + stack@.len(),
        {
            proof {
                lemma_count_true_bounds(seen@, n as int);
            }
            let ghost measure = 2 * (n - count_true(seen@, n as int)) + stack@.len();
            let node = stack.pop().unwrap();
            comp.set(node, next_id);
            let list = &incoming[node];
            let mut i = list.len();
            while i > 0
                invariant
                    i <= list@.len(),
                    list == &incoming@[node as int],
                    node < n,
                    n == seen@.len(),
                    n == incoming@.len(),
                    lists_bounded(incoming@, n as int),
                    forall|j: int| 0 <= j < stack@.len() ==> stack@[j] < n,
                    2 * (n - count_true(seen@, n as int)) + stack@.len() < measure,
                    0 <= count_true(seen@, n as int) <= n,
                decreases i,
            {
                i = i - 1;
                let nb = list[i];
                assert(nb < n) by {
                    assert(incoming@[node as int]@[i as int] < n);
                }
                if !seen[nb] {
                    proof {
                        lemma_count_true_set(seen@, nb as int, n as int);
                    }
                    seen.set(nb, true);
                    stack.push(nb);
                    proof {
                        lemma_count_true_bounds(seen@, n as int);
                    }
                }
            }
        }
        next_id = next_id + 1;
    }
    comp
}

/// The cyclic strongly connected components of the residual graph, each in
/// ascending node order, ordered by their smallest node.
fn cyclic_strong_components(n: usize, edges: &Vec<REdge>) -> (r: Vec<Vec<usize>>)
    requires
        forall|i: int| 0 <= i < edges@.len() ==> (#[trigger] edges@[i]).from < n && edges@[i].to < n,
    ensures
        lists_bounded(r@, n as int),
        forall|c: int| 0 <= c < r@.len() ==> (#[trigger] r@[c])@.len() > 0,
        r@.len() <= n,
        forall|c: int| 0 <= c < r@.len() ==> (#[trigger] r@[c])@.len() <= n,
{
    let outgoing = neighbours(n, edges, true);
    let incoming = neighbours(n, edges, false);
    let comp = component_ids(n, &outgoing, &incoming);
    let mut emitted: Vec<bool> = Vec::new();
    let mut v: usize = 0;
    while v < n
        invariant
            v <= n,
            emitted@.len() == v,
        decreases n - v,
    {
        emitted.push(false);
        v = v + 1;
    }
    let mut components: Vec<Vec<usize>> = Vec::new();
    let mut v: usize = 0;
    while v < n
        invariant
            v <= n,
            emitted@.len() == n,
            comp@.len() == n,
            lists_bounded(components@, n as int),
            forall|c: int| 0 <= c < components@.len() ==> (#[trigger] components@[c])@.len() > 0,
            forall|i: int| 0 <= i < edges@.len() ==> (#[trigger] edges@[i]).from < n && edges@[i].to < n,
            components@.len() <= v,
            forall|c: int| 0 <= c < components@.len() ==> (#[trigger] components@[c])@.len() <= n,
        decreases n - v,
    {
        if !emitted[v] {
            let id = comp[v];
            let mut members: Vec<usize> = Vec::new();
            let mut u: usize = v;
            while u < n
                invariant
                    v <= u <= n,
                    emitted@.len() == n,
                    comp@.len() == n,
                    forall|j: int| 0 <= j < members@.len() ==> members@[j] < n,
                    u > v ==> members@.len() > 0,
                    u == v ==> comp@[v as int] == id,
                    members@.len() <= u - v,
                decreases n - u,
            {
                if comp[u] == id {
                    members.push(u);
                    emitted.set(u, true);
                }
                u = u + 1;
            }
            let first = members[0];
            let mut cyclic = members.len() > 1;
            let mut i: usize = 0;
            while i < edges.len() && !cyclic
                invariant
                    i <= edges@.len(),
                decreases edges@.len() - i,
            {
                if edges[i].from == first && edges[i].to == first {
                    cyclic = true;
                }
                i = i + 1;
            }
            if cyclic {
                let ghost before = components@;
                components.push(members);
                proof {
                    assert forall|w: int, j: int| 0 <= w < components@.len() && 0 <= j < components@[w]@.len() implies #[trigger] components@[w]@[j] < n by {
                        if w < before.len() {
                            assert(components@[w] == before[w]);
                        }
                    }
                    assert forall|c: int| 0 <= c < components@.len() implies (#[trigger] components@[c])@.len() > 0 by {
                        if c < before.len() {
                            assert(components@[c] == before[c]);
                        }
                    }
                    assert forall|c: int| 0 <= c < components@.len() implies (#[trigger] components@[c])@.len() <= n by {
                        if c < before.len() {
                            assert(components@[c] == before[c]);
                        }
                    }
                }
            }
        }
        v = v + 1;
    }
    components
}

/// A selected residual cycle with its cost, mean, and Karp labels.
struct SelectedCycle {
    cycle: Vec<Arc>,
    cost: i128,
    mean: Rational,
    labels: Vec<Option<i128>>,
}

spec fn local_ok(local: Seq<Option<usize>>, k: int) -> bool {
    forall|v: int| 0 <= v < local.len() ==> ((#[trigger] local[v]) matches Some(x) ==> x < k)
}

/// Total unit cost of the first `i` arcs.
spec fn arcs_cost(net: &ArcNet, arcs: Seq<Arc>, i: int) -> int
    decreases i,
{
    if i <= 0 { 0 } else { arcs_cost(net, arcs, i - 1) + net.cost_of(arcs[i - 1]) }
}

proof fn lemma_arcs_cost_is_path_cost(net: &ArcNet, arcs: Seq<Arc>, i: int)
    ensures
        arcs_cost(net, arcs, i) == path_cost(net, arcs, i),
    decreases i,
{
    if i > 0 {
        lemma_arcs_cost_is_path_cost(net, arcs, i - 1);
    }
}

/// Room of each of the first `k` edges times the size of its cost.
pub open spec fn cost_span_prefix(edges: Seq<FlowEdge>, k: int) -> int
    decreases k,
{
    if k <= 0 {
        0
    } else {
        let e = edges[k - 1];
        let size: int = if e.cost < 0 { -(e.cost as int) } else { e.cost as int };
        cost_span_prefix(edges, k - 1) + size * (e.capacity - e.lower)
    }
}

/// Least cost of the first `k` edges over all bounded flows.
pub open spec fn cost_floor_prefix(edges: Seq<FlowEdge>, k: int) -> int
    decreases k,
{
    if k <= 0 {
        0
    } else {
        let e = edges[k - 1];
        cost_floor_prefix(edges, k - 1) + (if e.cost < 0 { e.cost * e.capacity } else { e.cost * e.lower })
    }
}

/// How far the total cost can range over the bounded flows of `g`: the room
/// of each edge times the size of its cost.
pub open spec fn cost_span(g: FlowNetwork) -> int {
    cost_span_prefix(g.edge_seq(), g.m() as int)
}

/// Cycle canceling cannot reach its work ceilings on `g`: every canceled
/// cycle lowers the total cost by at least one, so fewer cycles can be
/// canceled than the cycle ceiling, and one minimum-mean search per
/// canceled cycle, plus the last, stays within the scan ceiling.
pub open spec fn mmcc_within_ceilings(g: FlowNetwork) -> bool {
    &&& cost_span(g) < MINIMUM_MEAN_CYCLE_CANCELING_MAX_CYCLES
    &&& (cost_span(g) + 1) * search_scan_bound(g.n() as int, 2 * (g.m() as int)) <= MINIMUM_MEAN_CYCLE_CANCELING_MAX_RESIDUAL_ARC_SCANS
}

proof fn lemma_cost_window(net: &ArcNet, g: FlowNetwork, f: Seq<u64>, k: int)
    requires
        mirrors(net, g),
        net.bounded(f),
        0 <= k <= g.m(),
    ensures
        cost_floor_prefix(g.edge_seq(), k) <= net_cost(net, f, k) <= cost_floor_prefix(g.edge_seq(), k) + cost_span_prefix(g.edge_seq(), k),
    decreases k,
{
    if k > 0 {
        lemma_cost_window(net, g, f, k - 1);
        let e = g.edge_seq()[k - 1];
        let c = e.cost as int;
        let x = f[k - 1] as int;
        assert(net.cost@[k - 1] == e.cost && net.lower@[k - 1] == e.lower && net.cap@[k - 1] == e.capacity);
        assert(e.lower <= x <= e.capacity);
        let lo = e.lower as int;
        let hi = e.capacity as int;
        if c < 0 {
            assert(c * hi <= c * x <= c * hi + (-c) * (hi - lo)) by (nonlinear_arith)
                requires
                    c < 0,
                    lo <= x <= hi,
            ;
        } else {
            assert(c * lo <= c * x <= c * lo + c * (hi - lo)) by (nonlinear_arith)
                requires
                    c >= 0,
                    lo <= x <= hi,
            ;
        }
    }
}

/// Total cost of a residual cycle.
fn cycle_cost(net: &ArcNet, cycle: &Vec<Arc>) -> (r: Result<i128, Mmcc>)
    requires
        net.wf(),
        arcs_ok(net, cycle@),
    ensures
        mmcc_late(r),
        r matches Ok(c) ==> c == arcs_cost(net, cycle@, cycle@.len() as int),
        r is Err ==> r == Err::<i128, Mmcc>(Mmcc::ArithmeticOverflow),
{
    let mut cost: i128 = 0;
    let mut i: usize = 0;
    while i < cycle.len()
        invariant
            net.wf(),
            arcs_ok(net, cycle@),
            i <= cycle@.len(),
            cost == arcs_cost(net, cycle@, i as int),
        decreases cycle@.len() - i,
    {
        cost = match cost.checked_add(net.arc_cost(cycle[i])) {
            Some(c) => c,
            None => return fail(Mmcc::ArithmeticOverflow),
        };
        i = i + 1;
    }
    Ok(cost)
}

/// `cost * denominator - numerator`: the arc cost shifted by the mean.
fn transformed_cost(cost: i128, mean: Rational) -> (r: Result<i128, Mmcc>)
    ensures
        mmcc_late(r),
        !(r matches Err(Mmcc::WorkLimit)),
        r matches Ok(y) ==> y == cost * mean.denominator - mean.numerator,
        r is Err <==> !(i128::MIN <= cost * mean.denominator <= i128::MAX
            && i128::MIN <= cost * mean.denominator - mean.numerator <= i128::MAX),
        r is Err ==> r == Err::<i128, Mmcc>(Mmcc::ArithmeticOverflow),
{
    match cost.checked_mul(mean.denominator as i128) {
        Some(x) => match x.checked_sub(mean.numerator) {
            Some(y) => Ok(y),
            None => fail(Mmcc::ArithmeticOverflow),
        },
        None => fail(Mmcc::ArithmeticOverflow),
    }
}

/// Karp's minimum cycle mean from walk distances of every length.
fn karp_minimum_mean(distance: &Vec<Vec<Option<i128>>>, k: usize) -> (r: Result<Rational, Mmcc>)
    requires
        distance@.len() == k + 1,
        forall|l: int| 0 <= l <= k ==> (#[trigger] distance@[l])@.len() == k,
    ensures
        mmcc_late(r),
        !(r matches Err(Mmcc::WorkLimit)),
{
    let mut minimum: Option<Rational> = None;
    let mut node: usize = 0;
    while node < k
        invariant
            node <= k,
            distance@.len() == k + 1,
            forall|l: int| 0 <= l <= k ==> (#[trigger] distance@[l])@.len() == k,
        decreases k - node,
    {
        let last = match distance[k][node] {
            Some(d) => d,
            None => {
                node = node + 1;
                continue;
            },
        };
        let mut maximum: Option<Rational> = None;
        let mut length: usize = 0;
        while length < k
            invariant
                length <= k,
                node < k,
                distance@.len() == k + 1,
                forall|l: int| 0 <= l <= k ==> (#[trigger] distance@[l])@.len() == k,
            decreases k - length,
        {
            match distance[length][node] {
                Some(prefix) => {
                    let diff = match last.checked_sub(prefix) {
                        Some(x) => x,
                        None => return fail(Mmcc::ArithmeticOverflow),
                    };
                    let ratio = rational_new(diff, k - length)?;
                    let replace = match maximum {
                        None => true,
                        Some(current) => rational_order(ratio, current)? == 1,
                    };
                    if replace {
                        maximum = Some(ratio);
                    }
                },
                None => {},
            }
            length = length + 1;
        }
        let candidate = match maximum {
            Some(x) => x,
            None => return fail(Mmcc::SelectorInvariant),
        };
        let replace = match minimum {
            None => true,
            Some(current) => rational_order(candidate, current)? == -1,
        };
        if replace {
            minimum = Some(candidate);
        }
        node = node + 1;
    }
    match minimum {
        Some(m) => Ok(m),
        None => fail(Mmcc::SelectorInvariant),
    }
}

spec fn tight_ok(net: &ArcNet, tight: Seq<Vec<(Arc, usize)>>, k: int) -> bool {
    forall|u: int, i: int| 0 <= u < tight.len() && 0 <= i < tight[u]@.len() ==> {
        let t = #[trigger] tight[u]@[i];
        t.0.0 < net.m() && t.1 < k
    }
}

spec fn parents_ok(net: &ArcNet, pn: Seq<Option<usize>>, pe: Seq<Option<Arc>>, k: int) -> bool {
    &&& forall|u: int| 0 <= u < pn.len() ==> ((#[trigger] pn[u]) matches Some(x) ==> x < k)
    &&& forall|u: int| 0 <= u < pe.len() ==> ((#[trigger] pe[u]) matches Some(a) ==> a.0 < net.m())
}

/// Rotates a cycle so that its canonically least arc comes first.
/// Arc `k` of `cycle` has the least key, and every earlier arc a larger one.
spec fn first_least_key(cycle: Seq<Arc>, k: int) -> bool {
    &&& 0 <= k < cycle.len()
    &&& forall|j: int| 0 <= j < cycle.len() ==> key_of(cycle[k]) <= key_of(#[trigger] cycle[j])
    &&& forall|j: int| 0 <= j < k ==> key_of(cycle[k]) < key_of(#[trigger] cycle[j])
}

fn canonicalize_cycle(cycle: &Vec<Arc>) -> (r: Vec<Arc>)
    ensures
        r@.len() == cycle@.len(),
        forall|i: int| 0 <= i < r@.len() ==> cycle@.contains(#[trigger] r@[i]),
        cycle@.len() > 0 ==> exists|k: int| first_least_key(cycle@, k)
            && forall|j: int| 0 <= j < cycle@.len() ==> #[trigger] r@[j] == cycle@[(k + j) % (cycle@.len() as int)],
{
    let len = cycle.len();
    if len == 0 {
        return Vec::new();
    }
    let mut offset: usize = 0;
    let mut i: usize = 1;
    while i < len
        invariant
            len == cycle@.len(),
            1 <= i <= len,
            offset < i,
            forall|j: int| 0 <= j < i ==> key_of(cycle@[offset as int]) <= key_of(#[trigger] cycle@[j]),
            forall|j: int| 0 <= j < offset ==> key_of(cycle@[offset as int]) < key_of(#[trigger] cycle@[j]),
        decreases len - i,
    {
        if arc_key(cycle[i]) < arc_key(cycle[offset]) {
            offset = i;
        }
        i = i + 1;
    }
    let mut out: Vec<Arc> = Vec::new();
    let mut j: usize = 0;
    while j < len
        invariant
            len == cycle@.len(),
            offset < len,
            j <= len,
            out@.len() == j,
            forall|x: int| 0 <= x < out@.len() ==> cycle@.contains(#[trigger] out@[x]),
            forall|x: int| 0 <= x < j ==> #[trigger] out@[x] == cycle@[(offset + x) % (len as int)],
        decreases len - j,
    {
        let idx = if j < len - offset { offset + j } else { j - (len - offset) };
        out.push(cycle[idx]);
        proof {
            assert(out@[j as int] == cycle@[idx as int]);
            assert(cycle@.contains(out@[j as int]));
            if j < len - offset {
                assert((offset + j) % (len as int) == offset + j) by (nonlinear_arith)
                    requires
                        0 <= offset + j < len,
                ;
            } else {
                assert((offset + j) % (len as int) == j - (len - offset)) by (nonlinear_arith)
                    requires
                        len <= offset + j < 2 * len,
                ;
            }
        }
        j = j + 1;
    }
    proof {
        assert(first_least_key(cycle@, offset as int));
    }
    out
}

/// Depth-first search over tight arcs; the first arc closing onto the active
/// path yields the cycle it closes, canonically rotated.
fn find_tight_cycle(
    net: &ArcNet,
    node: usize,
    tight: &Vec<Vec<(Arc, usize)>>,
    seen: &mut Vec<bool>,
    done: &mut Vec<bool>,
    parent_node: &mut Vec<Option<usize>>,
    parent_edge: &mut Vec<Option<Arc>>,
) -> (r: Option<Vec<Arc>>)
    requires
        node < old(seen)@.len(),
        !old(seen)@[node as int],
        tight@.len() == old(seen)@.len(),
        old(done)@.len() == old(seen)@.len(),
        old(parent_node)@.len() == old(seen)@.len(),
        old(parent_edge)@.len() == old(seen)@.len(),
        tight_ok(net, tight@, old(seen)@.len() as int),
        parents_ok(net, old(parent_node)@, old(parent_edge)@, old(seen)@.len() as int),
    ensures
        final(seen)@.len() == old(seen)@.len(),
        final(done)@.len() == old(seen)@.len(),
        final(parent_node)@.len() == old(seen)@.len(),
        final(parent_edge)@.len() == old(seen)@.len(),
        parents_ok(net, final(parent_node)@, final(parent_edge)@, old(seen)@.len() as int),
        count_true(final(seen)@, old(seen)@.len() as int) > count_true(old(seen)@, old(seen)@.len() as int),
        forall|u: int| 0 <= u < old(seen)@.len() && old(seen)@[u] ==> final(seen)@[u],
        r matches Some(c) ==> arcs_ok(net, c@),
    decreases old(seen)@.len() - count_true(old(seen)@, old(seen)@.len() as int),
{
    let k = seen.len();
    proof {
        lemma_count_true_set(seen@, node as int, k as int);
        lemma_count_true_bounds(seen@, k as int);
    }
    seen.set(node, true);
    let ghost entry = count_true(old(seen)@, k as int);
    let list = &tight[node];
    let mut i: usize = 0;
    while i < list.len()
        invariant
            k == seen@.len(),
            k == tight@.len(),
            k == done@.len(),
            k == parent_node@.len(),
            k == parent_edge@.len(),
            list == &tight@[node as int],
            node < k,
            k == old(seen)@.len(),
            i <= list@.len(),
            tight_ok(net, tight@, k as int),
            parents_ok(net, parent_node@, parent_edge@, k as int),
            count_true(seen@, k as int) > entry,
            entry == count_true(old(seen)@, k as int),
            forall|u: int| 0 <= u < k && old(seen)@[u] ==> seen@[u],
        decreases list@.len() - i,
    {
        let (a, to) = list[i];
        assert(a.0 < net.m() && to < k) by {
            assert(tight@[node as int]@[i as int] == (a, to));
        }
        if !seen[to] {
            parent_node.set(to, Some(node));
            parent_edge.set(to, Some(a));
            proof {
                lemma_count_true_bounds(seen@, k as int);
            }
            match find_tight_cycle(net, to, tight, seen, done, parent_node, parent_edge) {
                Some(c) => return Some(c),
                None => {},
            }
        } else if !done[to] {
            let mut reversed: Vec<Arc> = Vec::new();
            let mut cursor = node;
            while cursor != to
                invariant
                    cursor < k,
                    k == old(seen)@.len(),
                    k == seen@.len(),
                    k == done@.len(),
                    count_true(seen@, k as int) > entry,
                    entry == count_true(old(seen)@, k as int),
                    forall|u: int| 0 <= u < k && old(seen)@[u] ==> seen@[u],
                    k == parent_node@.len(),
                    k == parent_edge@.len(),
                    parents_ok(net, parent_node@, parent_edge@, k as int),
                    arcs_ok(net, reversed@),
                    reversed@.len() <= k,
                decreases k - reversed@.len(),
            {
                let pe = match parent_edge[cursor] {
                    Some(x) => x,
                    None => return None,
                };
                if reversed.len() >= k {
                    return None;
                }
                reversed.push(pe);
                cursor = match parent_node[cursor] {
                    Some(x) => x,
                    None => return None,
                };
            }
            let mut path: Vec<Arc> = Vec::new();
            let mut j = reversed.len();
            while j > 0
                invariant
                    j <= reversed@.len(),
                    arcs_ok(net, reversed@),
                    arcs_ok(net, path@),
                decreases j,
            {
                j = j - 1;
                path.push(reversed[j]);
            }
            path.push(a);
            let c = canonicalize_cycle(&path);
            proof {
                assert forall|x: int| 0 <= x < c@.len() implies (#[trigger] c@[x]).0 < net.m() by {
                    assert(path@.contains(c@[x]));
                    let y = choose|y: int| 0 <= y < path@.len() && path@[y] == c@[x];
                    assert(path@[y].0 < net.m());
                }
            }
            return Some(c);
        }
        i = i + 1;
    }
    done.set(node, true);
    None
}

/// A tight cycle of the component: Bellman–Ford potentials under the
/// mean-shifted costs, then a depth-first search over zero reduced-cost arcs.
fn reconstruct_tight_cycle(
    net: &ArcNet,
    edges: &Vec<REdge>,
    local: &Vec<Option<usize>>,
    k: usize,
    mean: Rational,
    metrics: &mut Metrics,
    recorder: &mut Option<FlowTraceRecorder>,
    graph: &FlowNetwork,
) -> (r: Result<Vec<Arc>, Mmcc>)
    requires
        net.wf(),
        redges_ok(net, edges@),
        local@.len() == net.n,
        local_ok(local@, k as int),
    ensures
        mmcc_late(r),
        r matches Ok(c) ==> arcs_ok(net, c@),
        final(metrics).canceled_cycles == old(metrics).canceled_cycles,
        r is Ok || r == Err::<Vec<Arc>, Mmcc>(Mmcc::WorkLimit)
            ==> final(metrics).residual_arc_scans <= old(metrics).residual_arc_scans + (k + 1) * edges@.len(),
        r == Err::<Vec<Arc>, Mmcc>(Mmcc::WorkLimit) ==> final(metrics).residual_arc_scans > MINIMUM_MEAN_CYCLE_CANCELING_MAX_RESIDUAL_ARC_SCANS,
{
    let ghost e_len = edges@.len() as int;
    let mut potential: Vec<i128> = Vec::new();
    let mut v: usize = 0;
    while v < k
        invariant
            v <= k,
            potential@.len() == v,
        decreases k - v,
    {
        potential.push(0);
        v = v + 1;
    }
    proof {
        assert(k * e_len + e_len == (k + 1) * e_len) by (nonlinear_arith);
    }
    let mut pass: usize = 0;
    while pass < k
        invariant_except_break
            metrics.residual_arc_scans <= old(metrics).residual_arc_scans + pass * e_len,
        invariant
            k * e_len + e_len == (k + 1) * e_len,
            pass <= k,
            e_len == edges@.len(),
            net.wf(),
            redges_ok(net, edges@),
            local@.len() == net.n,
            local_ok(local@, k as int),
            potential@.len() == k,
            metrics.canceled_cycles == old(metrics).canceled_cycles,
        ensures
            metrics.residual_arc_scans <= old(metrics).residual_arc_scans + k * e_len,
        decreases k - pass,
    {
        proof {
            assert(pass * e_len + e_len == (pass + 1) * e_len) by (nonlinear_arith);
            assert((pass + 1) * e_len <= k * e_len) by (nonlinear_arith)
                requires
                    pass + 1 <= k,
                    e_len >= 0,
            ;
        }
        let mut updated = false;
        let mut i: usize = 0;
        while i < edges.len()
            invariant
                net.wf(),
                redges_ok(net, edges@),
                local@.len() == net.n,
                local_ok(local@, k as int),
                potential@.len() == k,
                i <= edges@.len(),
                metrics.canceled_cycles == old(metrics).canceled_cycles,
                e_len == edges@.len(),
                pass < k,
                metrics.residual_arc_scans <= old(metrics).residual_arc_scans + pass * e_len + i,
                pass * e_len + e_len == (pass + 1) * e_len,
                (pass + 1) * e_len <= k * e_len,
                k * e_len + e_len == (k + 1) * e_len,
            decreases edges@.len() - i,
        {
            let e = edges[i];
            assert(redge_ok(net, edges@[i as int]));
            assert(metrics.residual_arc_scans + 1 <= old(metrics).residual_arc_scans + (k + 1) * e_len);
            track_scan(metrics, recorder, graph, e.arc, "tight-potential scan ordinal")?;
            let from = match local[e.from] {
                Some(x) => x,
                None => return fail(Mmcc::SelectorInvariant),
            };
            let to = match local[e.to] {
                Some(x) => x,
                None => return fail(Mmcc::SelectorInvariant),
            };
            let shifted = transformed_cost(e.cost, mean)?;
            let candidate = match potential[from].checked_add(shifted) {
                Some(c) => c,
                None => return fail(Mmcc::ArithmeticOverflow),
            };
            if candidate < potential[to] {
                potential.set(to, candidate);
                updated = true;
            }
            i = i + 1;
        }
        if !updated {
            break;
        }
        pass = pass + 1;
    }
    proof {
        assert(k * e_len + e_len == (k + 1) * e_len) by (nonlinear_arith);
    }
    let mut is_tight: Vec<bool> = Vec::new();
    let mut i: usize = 0;
    while i < edges.len()
        invariant
            net.wf(),
            redges_ok(net, edges@),
            local@.len() == net.n,
            local_ok(local@, k as int),
            potential@.len() == k,
            i <= edges@.len(),
            is_tight@.len() == i,
            metrics.canceled_cycles == old(metrics).canceled_cycles,
            e_len == edges@.len(),
            metrics.residual_arc_scans <= old(metrics).residual_arc_scans + k * e_len + i,
            k * e_len + e_len == (k + 1) * e_len,
        decreases edges@.len() - i,
    {
        let e = edges[i];
        assert(redge_ok(net, edges@[i as int]));
        track_scan(metrics, recorder, graph, e.arc, "tight-arc scan ordinal")?;
        let from = match local[e.from] {
            Some(x) => x,
            None => return fail(Mmcc::SelectorInvariant),
        };
        let to = match local[e.to] {
            Some(x) => x,
            None => return fail(Mmcc::SelectorInvariant),
        };
        let shifted = transformed_cost(e.cost, mean)?;
        let reduced = match shifted.checked_add(potential[from]) {
            Some(x) => match x.checked_sub(potential[to]) {
                Some(y) => y,
                None => return fail(Mmcc::ArithmeticOverflow),
            },
            None => return fail(Mmcc::ArithmeticOverflow),
        };
        if reduced < 0 {
            return fail(Mmcc::SelectorInvariant);
        }
        is_tight.push(reduced == 0);
        i = i + 1;
    }
    let mut tight: Vec<Vec<(Arc, usize)>> = Vec::new();
    let mut u: usize = 0;
    while u < k
        invariant
            net.wf(),
            redges_ok(net, edges@),
            local@.len() == net.n,
            local_ok(local@, k as int),
            is_tight@.len() == edges@.len(),
            u <= k,
            tight@.len() == u,
            tight_ok(net, tight@, k as int),
        decreases k - u,
    {
        let mut list: Vec<(Arc, usize)> = Vec::new();
        let mut i: usize = 0;
        while i < edges.len()
            invariant
                net.wf(),
                redges_ok(net, edges@),
                local@.len() == net.n,
                local_ok(local@, k as int),
                is_tight@.len() == edges@.len(),
                i <= edges@.len(),
                forall|j: int| 0 <= j < list@.len() ==> (#[trigger] list@[j]).0.0 < net.m() && list@[j].1 < k,
            decreases edges@.len() - i,
        {
            let e = edges[i];
            assert(redge_ok(net, edges@[i as int]));
            if is_tight[i] && local[e.from] == Some(u) {
                match local[e.to] {
                    Some(to) => list.push((e.arc, to)),
                    None => {},
                }
            }
            i = i + 1;
        }
        let ghost before = tight@;
        tight.push(list);
        proof {
            assert forall|w: int, j: int| 0 <= w < tight@.len() && 0 <= j < tight@[w]@.len() implies {
                let t = #[trigger] tight@[w]@[j];
                t.0.0 < net.m() && t.1 < k
            } by {
                if w < before.len() {
                    assert(tight@[w] == before[w]);
                }
            }
        }
        u = u + 1;
    }
    let mut seen: Vec<bool> = Vec::new();
    let mut done: Vec<bool> = Vec::new();
    let mut parent_node: Vec<Option<usize>> = Vec::new();
    let mut parent_edge: Vec<Option<Arc>> = Vec::new();
    let mut v: usize = 0;
    while v < k
        invariant
            v <= k,
            seen@.len() == v,
            done@.len() == v,
            parent_node@.len() == v,
            parent_edge@.len() == v,
            parents_ok(net, parent_node@, parent_edge@, k as int),
        decreases k - v,
    {
        seen.push(false);
        done.push(false);
        parent_node.push(None);
        parent_edge.push(None);
        v = v + 1;
    }
    let mut start: usize = 0;
    while start < k
        invariant
            net.wf(),
            start <= k,
            k == seen@.len(),
            k == done@.len(),
            k == tight@.len(),
            k == parent_node@.len(),
            k == parent_edge@.len(),
            tight_ok(net, tight@, k as int),
            parents_ok(net, parent_node@, parent_edge@, k as int),
            metrics.canceled_cycles == old(metrics).canceled_cycles,
            metrics.residual_arc_scans <= old(metrics).residual_arc_scans + (k + 1) * e_len,
            e_len == edges@.len(),
        decreases k - start,
    {
        if !seen[start] {
            match find_tight_cycle(net, start, &tight, &mut seen, &mut done, &mut parent_node, &mut parent_edge) {
                Some(cycle) => {
                    let cost = cycle_cost(net, &cycle)?;
                    let m = rational_new(cost, cycle.len())?;
                    if m.numerator != mean.numerator || m.denominator != mean.denominator {
                        return fail(Mmcc::SelectorInvariant);
                    }
                    return Ok(cycle);
                },
                None => {},
            }
        }
        start = start + 1;
    }
    fail(Mmcc::SelectorInvariant)
}

/// Karp's minimum-mean cycle of one cyclic component, with its labels.
fn minimum_mean_cycle_in_component(
    net: &ArcNet,
    edges: &Vec<REdge>,
    component: &Vec<usize>,
    metrics: &mut Metrics,
    recorder: &mut Option<FlowTraceRecorder>,
    graph: &FlowNetwork,
) -> (r: Result<SelectedCycle, Mmcc>)
    requires
        net.wf(),
        redges_ok(net, edges@),
        component@.len() > 0,
        forall|i: int| 0 <= i < component@.len() ==> component@[i] < net.n,
    ensures
        mmcc_late(r),
        r matches Ok(s) ==> arcs_ok(net, s.cycle@) && s.labels@.len() == net.n,
        final(metrics).canceled_cycles == old(metrics).canceled_cycles,
        r is Ok || r == Err::<SelectedCycle, Mmcc>(Mmcc::WorkLimit) ==> final(metrics).residual_arc_scans
            <= old(metrics).residual_arc_scans + (component@.len() * component@.len() + component@.len() + 1) * edges@.len(),
        r == Err::<SelectedCycle, Mmcc>(Mmcc::WorkLimit) ==> final(metrics).residual_arc_scans > MINIMUM_MEAN_CYCLE_CANCELING_MAX_RESIDUAL_ARC_SCANS,
{
    let n = net.n;
    let k = component.len();
    let mut local: Vec<Option<usize>> = Vec::new();
    let mut v: usize = 0;
    while v < n
        invariant
            v <= n,
            local@.len() == v,
            local_ok(local@, k as int),
        decreases n - v,
    {
        local.push(None);
        v = v + 1;
    }
    let mut j: usize = 0;
    while j < k
        invariant
            j <= k,
            k == component@.len(),
            local@.len() == n,
            n == net.n,
            local_ok(local@, k as int),
            forall|i: int| 0 <= i < component@.len() ==> component@[i] < net.n,
        decreases k - j,
    {
        local.set(component[j], Some(j));
        j = j + 1;
    }
    let mut inside: Vec<REdge> = Vec::new();
    let mut i: usize = 0;
    while i < edges.len()
        invariant
            redges_ok(net, edges@),
            redges_ok(net, inside@),
            local@.len() == n,
            n == net.n,
            i <= edges@.len(),
            inside@.len() <= i,
        decreases edges@.len() - i,
    {
        let e = edges[i];
        assert(redge_ok(net, edges@[i as int]));
        if local[e.from].is_some() && local[e.to].is_some() {
            inside.push(e);
        }
        i = i + 1;
    }
    let ghost i_len = inside@.len() as int;
    let mut incoming: Vec<Vec<REdge>> = Vec::new();
    let mut t: usize = 0;
    while t < k
        invariant
            t <= k,
            incoming@.len() == t,
            redges_ok(net, inside@),
            local@.len() == n,
            n == net.n,
            forall|u: int, x: int| 0 <= u < incoming@.len() && 0 <= x < incoming@[u]@.len() ==> redge_ok(net, #[trigger] incoming@[u]@[x]),
            i_len == inside@.len(),
            forall|u: int| 0 <= u < incoming@.len() ==> (#[trigger] incoming@[u])@.len() <= i_len,
        decreases k - t,
    {
        let mut list: Vec<REdge> = Vec::new();
        let mut i: usize = 0;
        while i < inside.len()
            invariant
                i <= inside@.len(),
                redges_ok(net, inside@),
                redges_ok(net, list@),
                local@.len() == n,
                n == net.n,
                list@.len() <= i,
            decreases inside@.len() - i,
        {
            let e = inside[i];
            assert(redge_ok(net, inside@[i as int]));
            if local[e.to] == Some(t) {
                list.push(e);
            }
            i = i + 1;
        }
        let ghost before = incoming@;
        incoming.push(list);
        proof {
            assert forall|u: int| 0 <= u < incoming@.len() implies (#[trigger] incoming@[u])@.len() <= i_len by {
                if u < before.len() {
                    assert(incoming@[u] == before[u]);
                }
            }
            assert forall|u: int, x: int| 0 <= u < incoming@.len() && 0 <= x < incoming@[u]@.len() implies redge_ok(net, #[trigger] incoming@[u]@[x]) by {
                if u < before.len() {
                    assert(incoming@[u] == before[u]);
                } else {
                    assert(incoming@[u] == list);
                }
            }
        }
        t = t + 1;
    }
    let ghost total = (k * k + k + 1) * edges@.len();
    proof {
        let kk = k as int;
        assert(kk * (kk * i_len) + (kk + 1) * i_len == (kk * kk + kk + 1) * i_len) by (nonlinear_arith);
        assert((kk * kk + kk + 1) * i_len <= (kk * kk + kk + 1) * edges@.len()) by (nonlinear_arith)
            requires
                i_len <= edges@.len(),
                kk >= 0,
        ;
    }
    let mut distance: Vec<Vec<Option<i128>>> = Vec::new();
    let mut first: Vec<Option<i128>> = none_labels(k);
    first.set(0, Some(0));
    distance.push(first);
    let mut step: usize = 0;
    while step < k
        invariant
            step <= k,
            distance@.len() == step + 1,
            forall|l: int| 0 <= l <= step ==> (#[trigger] distance@[l])@.len() == k,
            incoming@.len() == k,
            local@.len() == n,
            n == net.n,
            local_ok(local@, k as int),
            forall|u: int, x: int| 0 <= u < incoming@.len() && 0 <= x < incoming@[u]@.len() ==> redge_ok(net, #[trigger] incoming@[u]@[x]),
            metrics.canceled_cycles == old(metrics).canceled_cycles,
            forall|u: int| 0 <= u < incoming@.len() ==> (#[trigger] incoming@[u])@.len() <= i_len,
            i_len >= 0,
            metrics.residual_arc_scans <= old(metrics).residual_arc_scans + step * (k * i_len),
            k * (k * i_len) + (k + 1) * i_len <= total,
            k == component@.len(),
            total == (component@.len() * component@.len() + component@.len() + 1) * edges@.len(),
        decreases k - step,
    {
        proof {
            assert(step * (k * i_len) + k * i_len == (step + 1) * (k * i_len)) by (nonlinear_arith);
            assert((step + 1) * (k * i_len) <= k * (k * i_len)) by (nonlinear_arith)
                requires
                    step + 1 <= k,
                    i_len >= 0,
            ;
        }
        let length = step + 1;
        if metrics.dynamic_programming_rounds == u64::MAX {
            return fail(Mmcc::ArithmeticOverflow);
        }
        metrics.dynamic_programming_rounds = metrics.dynamic_programming_rounds + 1;
        let mut row = none_labels(k);
        let mut to: usize = 0;
        while to < k
            invariant
                to <= k,
                row@.len() == k,
                1 <= length <= k,
                distance@.len() == length,
                forall|l: int| 0 <= l < length ==> (#[trigger] distance@[l])@.len() == k,
                incoming@.len() == k,
                local@.len() == n,
                n == net.n,
                local_ok(local@, k as int),
                forall|u: int, x: int| 0 <= u < incoming@.len() && 0 <= x < incoming@[u]@.len() ==> redge_ok(net, #[trigger] incoming@[u]@[x]),
                metrics.canceled_cycles == old(metrics).canceled_cycles,
                forall|u: int| 0 <= u < incoming@.len() ==> (#[trigger] incoming@[u])@.len() <= i_len,
                i_len >= 0,
                metrics.residual_arc_scans <= old(metrics).residual_arc_scans + step * (k * i_len) + to * i_len,
                step * (k * i_len) + k * i_len == (step + 1) * (k * i_len),
                (step + 1) * (k * i_len) <= k * (k * i_len),
                k * (k * i_len) + (k + 1) * i_len <= total,
                (k + 1) * i_len >= 0,
                k == component@.len(),
                total == (component@.len() * component@.len() + component@.len() + 1) * edges@.len(),
            decreases k - to,
        {
            proof {
                assert(to * i_len + i_len == (to + 1) * i_len) by (nonlinear_arith);
                assert((to + 1) * i_len <= k * i_len) by (nonlinear_arith)
                    requires
                        to + 1 <= k,
                        i_len >= 0,
                ;
            }
            let list = &incoming[to];
            let mut i: usize = 0;
            while i < list.len()
                invariant
                    i <= list@.len(),
                    list == &incoming@[to as int],
                    to < k,
                    row@.len() == k,
                    1 <= length <= k,
                    distance@.len() == length,
                    forall|l: int| 0 <= l < length ==> (#[trigger] distance@[l])@.len() == k,
                    incoming@.len() == k,
                    local@.len() == n,
                    n == net.n,
                    local_ok(local@, k as int),
                    forall|u: int, x: int| 0 <= u < incoming@.len() && 0 <= x < incoming@[u]@.len() ==> redge_ok(net, #[trigger] incoming@[u]@[x]),
                    metrics.canceled_cycles == old(metrics).canceled_cycles,
                    list@.len() <= i_len,
                    metrics.residual_arc_scans <= old(metrics).residual_arc_scans + step * (k * i_len) + to * i_len + i,
                    to * i_len + i_len == (to + 1) * i_len,
                    (to + 1) * i_len <= k * i_len,
                    step * (k * i_len) + k * i_len == (step + 1) * (k * i_len),
                    (step + 1) * (k * i_len) <= k * (k * i_len),
                    k * (k * i_len) + (k + 1) * i_len <= total,
                    (k + 1) * i_len >= 0,
                    k == component@.len(),
                    total == (component@.len() * component@.len() + component@.len() + 1) * edges@.len(),
                decreases list@.len() - i,
            {
                let e = list[i];
                assert(redge_ok(net, incoming@[to as int]@[i as int]));
                assert(metrics.residual_arc_scans + 1 <= old(metrics).residual_arc_scans + total);
                i = i + 1;
                track_scan(metrics, recorder, graph, e.arc, "karp-dp scan ordinal")?;
                let from = match local[e.from] {
                    Some(x) => x,
                    None => return fail(Mmcc::SelectorInvariant),
                };
                let prefix = match distance[length - 1][from] {
                    Some(p) => p,
                    None => continue,
                };
                let candidate = match prefix.checked_add(e.cost) {
                    Some(c) => c,
                    None => return fail(Mmcc::ArithmeticOverflow),
                };
                let improves = match row[to] {
                    Some(current) => candidate < current,
                    None => true,
                };
                if improves {
                    row.set(to, Some(candidate));
                }
            }
            to = to + 1;
        }
        distance.push(row);
        step = step + 1;
    }
    let mean = karp_minimum_mean(&distance, k)?;
    let ghost scans_dp = metrics.residual_arc_scans;
    assert(metrics.residual_arc_scans + (k + 1) * i_len <= old(metrics).residual_arc_scans + total);
    let cycle = reconstruct_tight_cycle(net, &inside, &local, k, mean, metrics, recorder, graph)?;
    proof {
        let kk = k as int;
        assert(kk * (kk * i_len) + (kk + 1) * i_len == (kk * kk + kk + 1) * i_len) by (nonlinear_arith);
        assert((kk * kk + kk + 1) * i_len <= (kk * kk + kk + 1) * edges@.len()) by (nonlinear_arith)
            requires
                i_len <= edges@.len(),
                kk >= 0,
        ;
    }
    let cost = cycle_cost(net, &cycle)?;
    let cycle_mean = rational_new(cost, cycle.len())?;
    if cycle_mean.numerator != mean.numerator || cycle_mean.denominator != mean.denominator {
        return fail(Mmcc::SelectorInvariant);
    }
    let mut labels = none_labels(n);
    let mut j: usize = 0;
    while j < k
        invariant
            j <= k,
            k == component@.len(),
            labels@.len() == n,
            n == net.n,
            distance@.len() == k + 1,
            forall|l: int| 0 <= l <= k ==> (#[trigger] distance@[l])@.len() == k,
            forall|i: int| 0 <= i < component@.len() ==> component@[i] < net.n,
        decreases k - j,
    {
        labels.set(component[j], distance[k][j]);
        j = j + 1;
    }
    Ok(SelectedCycle { cycle, cost, mean, labels })
}

/// Residual-arc inspections one minimum-mean cycle search can make on `n`
/// nodes that list at most `d` arcs each: the inventory of at most `n·d`
/// residual arcs, then, in each of at most `n` cyclic components of at most
/// `n` nodes, at most `n² + n + 1` passes over that inventory (Karp's table
/// and the tight-cycle search).
pub open spec fn search_scan_bound(n: int, d: int) -> int {
    n * d + n * ((n * n + n + 1) * (n * d))
}

/// Lexicographic order of two cycles by canonical arc position.
/// From position `i` on, `a` comes before `b` in canonical arc order:
/// at the first position where their arcs differ, or by being shorter.
pub open spec fn arcs_precede_from(a: Seq<Arc>, b: Seq<Arc>, i: int) -> bool
    decreases a.len() - i,
{
    if 0 <= i < a.len() && i < b.len() {
        if key_of(a[i]) < key_of(b[i]) {
            true
        } else if key_of(a[i]) > key_of(b[i]) {
            false
        } else {
            arcs_precede_from(a, b, i + 1)
        }
    } else {
        a.len() < b.len()
    }
}

fn cycle_precedes(a: &Vec<Arc>, b: &Vec<Arc>) -> (r: bool)
    ensures
        r == arcs_precede_from(a@, b@, 0),
{
    let mut i: usize = 0;
    while i < a.len() && i < b.len()
        invariant
            i <= a@.len(),
            i <= b@.len(),
            arcs_precede_from(a@, b@, 0) == arcs_precede_from(a@, b@, i as int),
        decreases a@.len() - i,
    {
        let x = arc_key(a[i]);
        let y = arc_key(b[i]);
        if x < y {
            return true;
        }
        if x > y {
            return false;
        }
        i = i + 1;
    }
    a.len() < b.len()
}

/// The residual cycle of least mean cost over every cyclic component, ties by
/// canonical arc order, when that mean is negative.
fn select_minimum_mean_cycle(
    net: &ArcNet,
    flows: &Vec<u64>,
    metrics: &mut Metrics,
    recorder: &mut Option<FlowTraceRecorder>,
    graph: &FlowNetwork,
) -> (r: Result<Option<SelectedCycle>, Mmcc>)
    requires
        net.wf(),
        net.bounded(flows@),
    ensures
        mmcc_late(r),
        r matches Ok(Some(s)) ==> arcs_ok(net, s.cycle@) && s.labels@.len() == net.n && s.mean.numerator < 0,
        final(metrics).canceled_cycles == old(metrics).canceled_cycles,
        r is Ok || r == Err::<Option<SelectedCycle>, Mmcc>(Mmcc::WorkLimit) ==> final(metrics).residual_arc_scans
            <= old(metrics).residual_arc_scans + search_scan_bound(net.n as int, max_listed(net, net.n as int)),
        r == Err::<Option<SelectedCycle>, Mmcc>(Mmcc::WorkLimit) ==> final(metrics).residual_arc_scans > MINIMUM_MEAN_CYCLE_CANCELING_MAX_RESIDUAL_ARC_SCANS,
{
    if metrics.mean_cycle_searches == u64::MAX {
        return fail(Mmcc::ArithmeticOverflow);
    }
    metrics.mean_cycle_searches = metrics.mean_cycle_searches + 1;
    let edges = collect_residual_edges(net, flows, metrics, recorder, graph)?;
    let components = cyclic_strong_components(net.n, &edges);
    let ghost nn = net.n as int;
    let ghost dd = max_listed(net, nn);
    let ghost ee = edges@.len() as int;
    let ghost per = (nn * nn + nn + 1) * ee;
    let ghost s1 = metrics.residual_arc_scans as int;
    proof {
        if nn > 0 {
            lemma_max_listed_bounds(net, nn, 0);
        }
        assert(per >= 0) by (nonlinear_arith)
            requires
                nn >= 0,
                ee >= 0,
                per == (nn * nn + nn + 1) * ee,
        ;
        let s00 = old(metrics).residual_arc_scans as int;
        assert(s1 + nn * per <= s00 + search_scan_bound(nn, dd)) by (nonlinear_arith)
            requires
                s1 <= s00 + nn * dd,
                ee <= nn * dd,
                nn >= 0,
                dd >= 0,
                per == (nn * nn + nn + 1) * ee,
        ;
    }
    let mut best: Option<SelectedCycle> = None;
    let mut c: usize = 0;
    while c < components.len()
        invariant
            net.wf(),
            redges_ok(net, edges@),
            lists_bounded(components@, net.n as int),
            forall|x: int| 0 <= x < components@.len() ==> (#[trigger] components@[x])@.len() > 0,
            best matches Some(s) ==> arcs_ok(net, s.cycle@) && s.labels@.len() == net.n,
            metrics.canceled_cycles == old(metrics).canceled_cycles,
            components@.len() <= nn,
            forall|x: int| 0 <= x < components@.len() ==> (#[trigger] components@[x])@.len() <= nn,
            nn == net.n,
            ee == edges@.len(),
            per == (nn * nn + nn + 1) * ee,
            per >= 0,
            c <= components@.len(),
            metrics.residual_arc_scans <= s1 + c * per,
            s1 + nn * per <= old(metrics).residual_arc_scans + search_scan_bound(nn, dd),
            dd == max_listed(net, nn),
        decreases components@.len() - c,
    {
        let component = &components[c];
        proof {
            let kk = components@[c as int]@.len() as int;
            assert((kk * kk + kk + 1) * ee <= per) by (nonlinear_arith)
                requires
                    0 <= kk <= nn,
                    ee >= 0,
                    per == (nn * nn + nn + 1) * ee,
            ;
            assert(c * per + per == (c + 1) * per) by (nonlinear_arith);
            assert((c + 1) * per <= nn * per) by (nonlinear_arith)
                requires
                    c + 1 <= nn,
                    per >= 0,
            ;
        }
        assert forall|i: int| 0 <= i < component@.len() implies component@[i] < net.n by {
            assert(components@[c as int]@[i] < net.n);
        }
        let candidate = minimum_mean_cycle_in_component(net, &edges, component, metrics, recorder, graph)?;
        let replace = match &best {
            None => true,
            Some(current) => {
                let order = rational_order(candidate.mean, current.mean)?;
                if order == -1 { true } else if order == 1 { false } else { cycle_precedes(&candidate.cycle, &current.cycle) }
            },
        };
        if replace {
            best = Some(candidate);
        }
        c = c + 1;
    }
    proof {
        assert(c * per <= nn * per) by (nonlinear_arith)
            requires
                c <= nn,
                per >= 0,
        ;
    }
    match best {
        Some(s) => if s.mean.numerator < 0 { Ok(Some(s)) } else { Ok(None) },
        None => Ok(None),
    }
}

/// The least mean cost of a residual cycle of `flows`, in lowest terms as
/// `(numerator, denominator)`, when that mean is negative; `None` when every
/// residual cycle costs at least zero. Flows outside their bounds are
/// rejected as a selector invariant failure.  Karp's selection is certified
/// before it is returned: the selected cycle attains the mean, and node
/// potentials for the costs shifted by the mean show that no residual cycle
/// has a smaller one.
pub fn minimum_cycle_mean(graph: &FlowNetwork, flows: &[u64]) -> (r: Result<Option<(i128, u64)>, MinimumMeanCycleCancelingError>)
    ensures
        r matches Ok(Some(mean)) ==> {
            &&& mean.0 < 0
            &&& mean.1 > 0
            &&& mean_bounds_every_cycle(*graph, flows@, mean.0 as int, mean.1 as int)
            &&& exists|c: Seq<(usize, bool)>| #[trigger] residual_cycle(*graph, flows@, c)
                && walk_cost(*graph, c, c.len() as int) * mean.1 == mean.0 * c.len()
        },
        r matches Ok(None) ==> mean_bounds_every_cycle(*graph, flows@, 0, 1),
        r is Err ==> !within_bounds(*graph, ints(flows@)) || mmcc_late(r),
{
    proof {
        use_type_invariant(graph);
    }
    if flows.len() != graph.edges().len() || !check_bounds(graph, flows) {
        return Err(Mmcc::SelectorInvariant);
    }
    let net = ArcNet::from_network(graph);
    let mut owned: Vec<u64> = Vec::new();
    let mut k: usize = 0;
    while k < flows.len()
        invariant
            k <= flows@.len(),
            owned@ == flows@.take(k as int),
        decreases flows@.len() - k,
    {
        owned.push(flows[k]);
        proof {
            assert(flows@.take(k + 1) =~= flows@.take(k as int).push(flows@[k as int]));
        }
        k = k + 1;
    }
    proof {
        assert(flows@.take(k as int) =~= flows@);
        assert forall|j: int| 0 <= j < net.m() implies net.lower@[j] <= #[trigger] owned@[j] <= net.cap@[j] by {
            assert(ints(flows@)[j] == flows@[j]);
        }
    }
    let mut metrics = Metrics { mean_cycle_searches: 0, dynamic_programming_rounds: 0, residual_arc_scans: 0, canceled_cycles: 0 };
    let mut recorder: Option<FlowTraceRecorder> = None;
    match select_minimum_mean_cycle(&net, &owned, &mut metrics, &mut recorder, graph)? {
        Some(s) => {
            let num = s.mean.numerator;
            let den = s.mean.denominator;
            if den == 0 || !cycle_has_mean(graph, flows, &s.cycle, num, den as i128) {
                return fail(Mmcc::SelectorInvariant);
            }
            match shifted_cost_potentials(graph, flows, num, den as i128) {
                Ok(p) => {
                    proof {
                        use_type_invariant(graph);
                        lemma_potentials_bound_cycle_means(*graph, flows@, p@, num as int, den as int);
                        assert(residual_cycle(*graph, flows@, s.cycle@));
                    }
                    Ok(Some((num, den)))
                },
                Err(_) => fail(Mmcc::SelectorInvariant),
            }
        },
        None => match shifted_cost_potentials(graph, flows, 0, 1) {
            Ok(p) => {
                proof {
                    use_type_invariant(graph);
                    lemma_potentials_bound_cycle_means(*graph, flows@, p@, 0, 1);
                }
                Ok(None)
            },
            Err(_) => fail(Mmcc::SelectorInvariant),
        },
    }
}

/// Pushes the bottleneck around a negative cycle.
fn cancel_cycle(net: &ArcNet, flows: &mut Vec<u64>, cycle: &Vec<Arc>, metrics: &mut Metrics) -> (r: Result<u64, Mmcc>)
    requires
        net.wf(),
        net.bounded(old(flows)@),
        arcs_ok(net, cycle@),
    ensures
        mmcc_late(r),
        net.bounded(final(flows)@),
        r is Ok ==> final(metrics).canceled_cycles == old(metrics).canceled_cycles + 1,
        r is Err ==> final(metrics).canceled_cycles == old(metrics).canceled_cycles,
        final(metrics).residual_arc_scans == old(metrics).residual_arc_scans,
        !(r matches Err(Mmcc::WorkLimit)),
        r is Ok ==> net_cost(net, final(flows)@, net.m() as int) + 1 <= net_cost(net, old(flows)@, net.m() as int),
{
    let amount = match net.bottleneck(flows, cycle) {
        Some(a) => a,
        None => return fail(Mmcc::SelectorInvariant),
    };
    let cost = cycle_cost(net, cycle)?;
    if amount == 0 || cost >= 0 {
        return fail(Mmcc::SelectorInvariant);
    }
    match net.augment(flows, cycle, amount) {
        Ok(()) => {},
        Err(_) => return fail(Mmcc::SelectorInvariant),
    }
    proof {
        lemma_arcs_cost_is_path_cost(net, cycle@, cycle@.len() as int);
        let pc = path_cost(net, cycle@, cycle@.len() as int);
        assert(amount * pc <= -1) by (nonlinear_arith)
            requires
                amount >= 1,
                pc <= -1,
        ;
    }
    if metrics.canceled_cycles == u64::MAX {
        return fail(Mmcc::ArithmeticOverflow);
    }
    metrics.canceled_cycles = metrics.canceled_cycles + 1;
    Ok(amount)
}

/// Heads of a cycle's arcs, in cycle order.
fn cycle_nodes(net: &ArcNet, cycle: &Vec<Arc>) -> (r: Vec<usize>)
    requires
        net.wf(),
        arcs_ok(net, cycle@),
    ensures
        r@.len() == cycle@.len(),
        forall|i: int| 0 <= i < cycle@.len() ==> r@[i] as int == net.arc_head(#[trigger] cycle@[i]),
{
    let mut out: Vec<usize> = Vec::new();
    let mut i: usize = 0;
    while i < cycle.len()
        invariant
            net.wf(),
            arcs_ok(net, cycle@),
            i <= cycle@.len(),
            out@.len() == i,
            forall|j: int| 0 <= j < i ==> out@[j] as int == net.arc_head(#[trigger] cycle@[j]),
        decreases cycle@.len() - i,
    {
        out.push(net.head_of(cycle[i]));
        i = i + 1;
    }
    out
}

/// Shared trace counters for minimum-mean cycle canceling.
pub fn mmcc_trace_metrics(metrics: MinimumMeanCycleCancelingMetrics) -> (r: FlowTraceMetrics)
    ensures
        r.relaxation_passes == metrics.dynamic_programming_rounds,
        r.residual_arc_scans == metrics.residual_arc_scans,
        r.augmentations == metrics.canceled_cycles,
        r.path_searches == metrics.mean_cycle_searches,
{
    FlowTraceMetrics {
        bfs_runs: 0,
        relaxation_passes: metrics.dynamic_programming_rounds as u128,
        residual_arc_scans: metrics.residual_arc_scans,
        augmentations: metrics.canceled_cycles as u128,
        path_searches: metrics.mean_cycle_searches as u128,
        scaling_phases: 0,
        blocking_flow_phases: 0,
        relabels: 0,
        retreats: 0,
        reverse_bfs_runs: 0,
        gap_terminations: 0,
        pushes: 0,
        saturating_pushes: 0,
        nonsaturating_pushes: 0,
        discharges: 0,
        active_vertex_selections: 0,
    }
}

fn record(
    recorder: &mut Option<FlowTraceRecorder>,
    graph: &FlowNetwork,
    flows: &Vec<u64>,
    metrics: Metrics,
    metadata: FlowTraceEventMetadata,
    labels: Vec<Option<i128>>,
    order: &Vec<usize>,
    cycle: &Vec<Arc>,
    detail: Option<(&'static str, i128)>,
) -> (r: Result<(), Mmcc>)
    ensures
        mmcc_late(r),
        !(r matches Err(Mmcc::WorkLimit)),
        (*old(recorder)) is None ==> r is Ok && (*final(recorder)) is None,
        (*old(recorder)) matches Some(before) ==> (*final(recorder)) matches Some(after) && {
            &&& r is Ok ==> after.event_count() == before.event_count() + 1 && after.current_state().0 == flows@
                && after.current_state().1 == labels@ && after.current_state().4 == Seq::<i128>::empty()
            &&& r is Err ==> after == before
        },
{
    match record_view(recorder, graph, flows, mmcc_trace_metrics(metrics), metadata, labels, order, cycle, Vec::new(), detail, Vec::new()) {
        Ok(()) => Ok(()),
        Err(e) => fail(Mmcc::Trace(e)),
    }
}

fn mmcc_internal(
    graph: &FlowNetwork,
    required: &[i128],
    record_trace: bool,
    usage: FeasibilityUse,
    feasibility: &mut FeasibilityExecution,
) -> (r: Result<(MinimumMeanCycleCancelingResult, Option<TraceParts>), Mmcc>)
    ensures
        r matches Err(e) ==> (e is AdmissionLimit ==> *final(feasibility) == *old(feasibility)),
        r matches Ok(run) ==> certified_min_cost(*graph, required@, run.0.flows@, run.0.certificate),
        r matches Ok(run) ==> (run.1 matches Some(t) ==> replayable(t)),
        r matches Ok(run) ==> run.0.metrics.canceled_cycles <= cost_span(*graph),
        mmcc_within_ceilings(*graph) ==> !(r matches Err(Mmcc::WorkLimit)),
        r == Err::<(MinimumMeanCycleCancelingResult, Option<TraceParts>), Mmcc>(Mmcc::AdmissionLimit) <==> mmcc_over_admission(*graph),
        r == Err::<(MinimumMeanCycleCancelingResult, Option<TraceParts>), Mmcc>(Mmcc::Feasibility(FeasibilityError::LengthMismatch))
            <==> !mmcc_over_admission(*graph) && required@.len() != graph.n(),
        r == Err::<(MinimumMeanCycleCancelingResult, Option<TraceParts>), Mmcc>(Mmcc::Feasibility(FeasibilityError::Infeasible))
            ==> forall|f: Seq<int>| !#[trigger] feasible_flow(*graph, f, wide(required@)),
{
    proof {
        use_type_invariant(graph);
    }
    let n = graph.nodes().len();
    if n > MINIMUM_MEAN_CYCLE_CANCELING_MAX_NODES || graph.edges().len() > MINIMUM_MEAN_CYCLE_CANCELING_MAX_EDGES {
        return Err(Mmcc::AdmissionLimit);
    }
    let mut flows = match feasibility.find_feasible_flow(graph, required, usage) {
        Ok(f) => f,
        Err(e) => return Err(Mmcc::Feasibility(e)),
    };
    let net = ArcNet::from_network(graph);
    proof {
        assert forall|k: int| 0 <= k < net.m() implies net.lower@[k] <= #[trigger] flows@[k] <= net.cap@[k] by {
            assert(ints(flows@)[k] == flows@[k]);
        }
    }
    let mut metrics = Metrics { mean_cycle_searches: 0, dynamic_programming_rounds: 0, residual_arc_scans: 0, canceled_cycles: 0 };
    let mut recorder: Option<FlowTraceRecorder> = None;
    let empty_order: Vec<usize> = Vec::new();
    let empty: Vec<Arc> = Vec::new();
    if record_trace {
        let snapshot = match FlowTraceSnapshot::capture(graph, &flows, none_labels(n), &empty_order, &empty, Vec::new(), mmcc_trace_metrics(metrics)) {
            Ok(s) => s,
            Err(e) => return Err(Mmcc::Trace(e)),
        };
        recorder = match FlowTraceRecorder::new(graph, snapshot) {
            Ok(rec) => Some(rec),
            Err(e) => return Err(Mmcc::Trace(e)),
        };
    }
    let ghost mm = graph.m() as int;
    let ghost c0 = net_cost(&net, flows@, mm);
    let ghost per_search = search_scan_bound(n as int, 2 * mm);
    proof {
        lemma_cost_window(&net, *graph, flows@, mm);
    }
    loop
        invariant_except_break
            metrics.residual_arc_scans <= metrics.canceled_cycles * per_search,
        invariant
            net.wf(),
            net.bounded(flows@),
            net.n == n,
            n == graph.n(),
            mm == graph.m(),
            net.m() == mm,
            mirrors(&net, *graph),
            max_listed(&net, n as int) <= 2 * mm,
            per_search == search_scan_bound(n as int, 2 * mm),
            required@.len() == n,
            !mmcc_over_admission(*graph),
            metrics.canceled_cycles <= MINIMUM_MEAN_CYCLE_CANCELING_MAX_CYCLES,
            net_cost(&net, flows@, mm) + metrics.canceled_cycles <= c0,
            c0 <= cost_floor_prefix(graph.edge_seq(), mm) + cost_span(*graph),
        decreases MINIMUM_MEAN_CYCLE_CANCELING_MAX_CYCLES - metrics.canceled_cycles,
    {
        record(&mut recorder, graph, &flows, metrics,
            meta("minimum-mean-cycle-canceling.start-selector", TraceGranularityV1::Phase, "minimum-mean-cycle-canceling:start-karp-selector"),
            none_labels(n), &empty_order, &empty, None)?;
        let ghost k0 = metrics.canceled_cycles as int;
        let ghost s0 = metrics.residual_arc_scans as int;
        proof {
            lemma_cost_window(&net, *graph, flows@, mm);
            assert(k0 <= cost_span(*graph));
            let nn = n as int;
            let dd = max_listed(&net, nn);
            if nn > 0 {
                lemma_max_listed_bounds(&net, nn, 0);
            }
            assert(dd >= 0);
            let two_m = 2 * mm;
            assert(search_scan_bound(nn, dd) <= per_search) by (nonlinear_arith)
                requires
                    nn >= 0,
                    0 <= dd <= two_m,
                    per_search == nn * two_m + nn * ((nn * nn + nn + 1) * (nn * two_m)),
                    search_scan_bound(nn, dd) == nn * dd + nn * ((nn * nn + nn + 1) * (nn * dd)),
            ;
            assert(per_search >= 0) by (nonlinear_arith)
                requires
                    nn >= 0,
                    two_m >= 0,
                    per_search == nn * two_m + nn * ((nn * nn + nn + 1) * (nn * two_m)),
            ;
            let sp = cost_span(*graph);
            if mmcc_within_ceilings(*graph) {
                assert((k0 + 1) * per_search <= (sp + 1) * per_search) by (nonlinear_arith)
                    requires
                        0 <= k0 <= sp,
                        per_search >= 0,
                ;
            }
        }
        let search = select_minimum_mean_cycle(&net, &flows, &mut metrics, &mut recorder, graph);
        proof {
            if search is Ok || search == Err::<Option<SelectedCycle>, Mmcc>(Mmcc::WorkLimit) {
                assert(metrics.residual_arc_scans <= s0 + per_search);
                assert(k0 * per_search + per_search == (k0 + 1) * per_search) by (nonlinear_arith);
                assert(metrics.residual_arc_scans <= (k0 + 1) * per_search);
            }
        }
        let selected = match search? {
            Some(s) => s,
            None => {
                record(&mut recorder, graph, &flows, metrics,
                    meta("minimum-mean-cycle-canceling.optimal", TraceGranularityV1::Phase, "minimum-mean-cycle-canceling:return-negative-cycle-free-flow"),
                    none_labels(n), &empty_order, &empty, None)?;
                break;
            },
        };
        if metrics.canceled_cycles >= MINIMUM_MEAN_CYCLE_CANCELING_MAX_CYCLES {
            return Err(Mmcc::WorkLimit);
        }
        let order = cycle_nodes(&net, &selected.cycle);
        record(&mut recorder, graph, &flows, metrics,
            meta("minimum-mean-cycle-canceling.select-minimum-mean-cycle", TraceGranularityV1::Operation, "minimum-mean-cycle-canceling:karp-minimum-cycle-mean"),
            selected.labels, &order, &selected.cycle, Some(("cycle-cost", selected.cost)))?;
        let amount = cancel_cycle(&net, &mut flows, &selected.cycle, &mut metrics)?;
        record(&mut recorder, graph, &flows, metrics,
            meta("minimum-mean-cycle-canceling.cancel-minimum-mean-cycle", TraceGranularityV1::Operation, "minimum-mean-cycle-canceling:augment-cycle-to-bottleneck"),
            none_labels(n), &order, &selected.cycle, Some(("delta", amount as i128)))?;
    }
    proof {
        lemma_cost_window(&net, *graph, flows@, mm);
    }
    let certificate = match check_min_cost_flow(graph, required, flows.as_slice()) {
        Ok(c) => c,
        Err(e) => return Err(Mmcc::Certificate(e)),
    };
    let trace = match recorder {
        Some(rec) => Some(rec.finish()),
        None => None,
    };
    Ok((MinimumMeanCycleCancelingResult { flows, certificate, metrics }, trace))
}

/// Minimizes an arbitrary feasible flow by canceling minimum-mean residual
/// cycles, selected exactly by Karp's characterization.
pub fn solve_minimum_mean_cycle_canceling(graph: &FlowNetwork, required_divergence: &[i128]) -> (r: Result<MinimumMeanCycleCancelingResult, MinimumMeanCycleCancelingError>)
    ensures
        r matches Ok(res) ==> certified_min_cost(*graph, required_divergence@, res.flows@, res.certificate),
        r matches Ok(res) ==> res.metrics.canceled_cycles <= cost_span(*graph),
        mmcc_within_ceilings(*graph) ==> !(r matches Err(Mmcc::WorkLimit)),
        r == Err::<MinimumMeanCycleCancelingResult, Mmcc>(Mmcc::AdmissionLimit) <==> mmcc_over_admission(*graph),
        r == Err::<MinimumMeanCycleCancelingResult, Mmcc>(Mmcc::Feasibility(FeasibilityError::LengthMismatch))
            <==> !mmcc_over_admission(*graph) && required_divergence@.len() != graph.n(),
        r == Err::<MinimumMeanCycleCancelingResult, Mmcc>(Mmcc::Feasibility(FeasibilityError::Infeasible))
            ==> forall|f: Seq<int>| !#[trigger] feasible_flow(*graph, f, wide(required_divergence@)),
{
    let mut feasibility = FeasibilityExecution::untracked();
    match mmcc_internal(graph, required_divergence, false, FeasibilityUse::InitialFlow, &mut feasibility) {
        Ok(run) => Ok(run.0),
        Err(e) => Err(e),
    }
}

/// Solves while reporting its initial feasible-flow construction to the
/// enclosing execution.
pub fn solve_minimum_mean_cycle_canceling_with_feasibility(
    graph: &FlowNetwork,
    required_divergence: &[i128],
    feasibility: &mut FeasibilityExecution,
) -> (r: Result<MinimumMeanCycleCancelingResult, MinimumMeanCycleCancelingError>)
    ensures
        r matches Err(e) ==> (e is AdmissionLimit ==> *final(feasibility) == *old(feasibility)),
        r matches Ok(res) ==> certified_min_cost(*graph, required_divergence@, res.flows@, res.certificate),
        r matches Ok(res) ==> res.metrics.canceled_cycles <= cost_span(*graph),
        mmcc_within_ceilings(*graph) ==> !(r matches Err(Mmcc::WorkLimit)),
        r == Err::<MinimumMeanCycleCancelingResult, Mmcc>(Mmcc::AdmissionLimit) <==> mmcc_over_admission(*graph),
        r == Err::<MinimumMeanCycleCancelingResult, Mmcc>(Mmcc::Feasibility(FeasibilityError::LengthMismatch))
            <==> !mmcc_over_admission(*graph) && required_divergence@.len() != graph.n(),
        r == Err::<MinimumMeanCycleCancelingResult, Mmcc>(Mmcc::Feasibility(FeasibilityError::Infeasible))
            ==> forall|f: Seq<int>| !#[trigger] feasible_flow(*graph, f, wide(required_divergence@)),
{
    match mmcc_internal(graph, required_divergence, false, FeasibilityUse::InitialFlow, feasibility) {
        Ok(run) => Ok(run.0),
        Err(e) => Err(e),
    }
}

fn traced(run: (MinimumMeanCycleCancelingResult, Option<TraceParts>)) -> (r: Result<MinimumMeanCycleCancelingTraceResult, Mmcc>)
    requires
        run.1 matches Some(t) ==> replayable(t),
    ensures
        r matches Ok(t) ==> trace_replays(trace_view(t.base_snapshot), t.events@, trace_view(t.final_snapshot)),
        r matches Ok(t) ==> t.result == run.0,
        r is Err ==> r == Err::<MinimumMeanCycleCancelingTraceResult, Mmcc>(Mmcc::SelectorInvariant),
{
    match run.1 {
        Some((base_snapshot, events, final_snapshot)) => Ok(MinimumMeanCycleCancelingTraceResult { result: run.0, base_snapshot, events, final_snapshot }),
        None => Err(Mmcc::SelectorInvariant),
    }
}

/// Runs minimum-mean cycle canceling with reversible selector events.
pub fn trace_minimum_mean_cycle_canceling(graph: &FlowNetwork, required_divergence: &[i128]) -> (r: Result<MinimumMeanCycleCancelingTraceResult, MinimumMeanCycleCancelingError>)
    ensures
        r matches Ok(res) ==> certified_min_cost(*graph, required_divergence@, res.result.flows@, res.result.certificate),
        r matches Ok(res) ==> res.result.metrics.canceled_cycles <= cost_span(*graph),
        mmcc_within_ceilings(*graph) ==> !(r matches Err(Mmcc::WorkLimit)),
        r matches Ok(res) ==> trace_replays(trace_view(res.base_snapshot), res.events@, trace_view(res.final_snapshot)),
        r == Err::<MinimumMeanCycleCancelingTraceResult, Mmcc>(Mmcc::AdmissionLimit) <==> mmcc_over_admission(*graph),
{
    let mut feasibility = FeasibilityExecution::untracked();
    traced(mmcc_internal(graph, required_divergence, true, FeasibilityUse::InitialFlow, &mut feasibility)?)
}

/// Traces minimum-mean cycle canceling while publishing its initial
/// feasible-flow construction to the enclosing execution.
pub fn trace_minimum_mean_cycle_canceling_with_feasibility(
    graph: &FlowNetwork,
    required_divergence: &[i128],
    feasibility: &mut FeasibilityExecution,
) -> (r: Result<MinimumMeanCycleCancelingTraceResult, MinimumMeanCycleCancelingError>)
    ensures
        r matches Err(e) ==> (e is AdmissionLimit ==> *final(feasibility) == *old(feasibility)),
        r matches Ok(res) ==> certified_min_cost(*graph, required_divergence@, res.result.flows@, res.result.certificate),
        r matches Ok(res) ==> res.result.metrics.canceled_cycles <= cost_span(*graph),
        mmcc_within_ceilings(*graph) ==> !(r matches Err(Mmcc::WorkLimit)),
        r matches Ok(res) ==> trace_replays(trace_view(res.base_snapshot), res.events@, trace_view(res.final_snapshot)),
        r == Err::<MinimumMeanCycleCancelingTraceResult, Mmcc>(Mmcc::AdmissionLimit) <==> mmcc_over_admission(*graph),
{
    traced(mmcc_internal(graph, required_divergence, true, FeasibilityUse::InitialFlow, feasibility)?)
}

} // verus!
