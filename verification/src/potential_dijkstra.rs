//! Successive shortest paths with feasible node potentials and Dijkstra
//! searches over nonnegative reduced costs.
use vstd::prelude::*;

use crate::augmenting::{distinct_edges, pushed_along, Arc, ArcNet};
use crate::certificate::{certified_min_cost, check_min_cost_flow, potentials_feasible, residual_potentials, wide};
use crate::feasibility::{lower_flow, FeasibilityError, FeasibilityExecution, FeasibilityUse};
use crate::flows::{divergence, feasible_flow, ints};
use crate::max_flow::{clone_labels, clone_usizes};
use crate::residual::{count_true, lemma_count_true_bounds, lemma_count_true_set};
use crate::min_cost::{
    lemma_surplus_at_least, lemma_surplus_send, surplus_sum, unmet_at_lower,
    all_zero, amount_to_deficit, arcs_ok, copy_remaining, dijkstra_over_admission,
    dijkstra_trace_metrics, first_surplus, follow_predecessors, lower_flows, none_labels,
    remaining_after, PotentialDijkstraSspError, PotentialDijkstraSspMetrics,
    PotentialDijkstraSspResult, PotentialDijkstraSspTraceResult, TraceParts,
    POTENTIAL_DIJKSTRA_SSP_MAX_AUGMENTATIONS, POTENTIAL_DIJKSTRA_SSP_MAX_EDGES,
    POTENTIAL_DIJKSTRA_SSP_MAX_NODES,
};
use crate::model::FlowNetwork;
use crate::trace::{replayable, trace_replays, trace_view, 
    record_view, residual_arc_entity_refs, residual_path_node_order, FlowTraceError,
    FlowTraceEventMetadata, FlowTraceRecorder, FlowTraceSnapshot, TraceGranularityV1,
};

verus! {

/// Residual capacity of an arc under the given flows.
pub open spec fn res_cap(net: &ArcNet, flows: Seq<u64>, a: Arc) -> int {
    if a.1 { net.cap@[a.0 as int] - flows[a.0 as int] } else { flows[a.0 as int] - net.lower@[a.0 as int] }
}

/// Reduced cost of an arc under node prices.
pub open spec fn reduced(net: &ArcNet, p: Seq<int>, a: Arc) -> int {
    net.cost_of(a) + p[net.arc_tail(a)] - p[net.arc_head(a)]
}

/// Every residual arc of positive capacity has a nonnegative reduced cost.
pub open spec fn prices_feasible(net: &ArcNet, flows: Seq<u64>, p: Seq<int>) -> bool {
    forall|v: int, i: int| 0 <= v < net.n && 0 <= i < net.adj@[v]@.len() ==> {
        let a = #[trigger] net.adj@[v]@[i];
        res_cap(net, flows, a) > 0 ==> reduced(net, p, a) >= 0
    }
}

/// Labels that no positive residual arc can improve: every such arc leaving a
/// labelled node reaches a labelled node, within the arc's reduced cost.
pub open spec fn labels_settled(net: &ArcNet, flows: Seq<u64>, p: Seq<int>, d: Seq<Option<i128>>) -> bool {
    forall|v: int, i: int| 0 <= v < net.n && 0 <= i < net.adj@[v]@.len() ==> {
        let a = #[trigger] net.adj@[v]@[i];
        (res_cap(net, flows, a) > 0 && d[v] is Some) ==> {
            &&& d[net.arc_head(a)] is Some
            &&& d[net.arc_head(a)]->0 <= d[v]->0 + reduced(net, p, a)
        }
    }
}

/// `w` is a walk of arcs with positive residual capacity from `from` to `to`.
pub open spec fn res_walk(net: &ArcNet, flows: Seq<u64>, w: Seq<Arc>, from: int, to: int) -> bool {
    &&& forall|i: int| 0 <= i < w.len() ==> (#[trigger] w[i]).0 < net.m() && res_cap(net, flows, w[i]) > 0
    &&& w.len() == 0 ==> from == to
    &&& w.len() > 0 ==> net.arc_tail(w[0]) == from && net.arc_head(w[w.len() - 1]) == to
    &&& forall|i: int| 0 <= i < w.len() - 1 ==> #[trigger] net.arc_head(w[i]) == net.arc_tail(w[i + 1])
}

/// Total reduced cost of the first `k` arcs of `w`.
pub open spec fn walk_reduced(net: &ArcNet, p: Seq<int>, w: Seq<Arc>, k: int) -> int
    decreases k,
{
    if k <= 0 { 0 } else { walk_reduced(net, p, w, k - 1) + reduced(net, p, w[k - 1]) }
}

/// Settled labels bound the arc: its head is labelled within the tail's label
/// plus the arc's reduced cost.
proof fn lemma_settled_arc(net: &ArcNet, flows: Seq<u64>, p: Seq<int>, d: Seq<Option<i128>>, a: Arc)
    requires
        net.wf(),
        net.complete(),
        labels_settled(net, flows, p, d),
        a.0 < net.m(),
        res_cap(net, flows, a) > 0,
        d[net.arc_tail(a)] is Some,
    ensures
        d[net.arc_head(a)] is Some,
        d[net.arc_head(a)]->0 <= d[net.arc_tail(a)]->0 + reduced(net, p, a),
{
    let k = a.0 as int;
    assert(net.lists_arcs_of(k));
    let v = net.arc_tail(a);
    if a.1 {
        let x = choose|x: int| 0 <= x < net.adj@[net.tail@[k] as int]@.len()
            && (#[trigger] net.adj@[net.tail@[k] as int]@[x]).0 as int == k && net.adj@[net.tail@[k] as int]@[x].1;
        assert(net.adj@[v]@[x] == a);
    } else {
        let x = choose|x: int| 0 <= x < net.adj@[net.head@[k] as int]@.len()
            && (#[trigger] net.adj@[net.head@[k] as int]@[x]).0 as int == k && !net.adj@[net.head@[k] as int]@[x].1;
        assert(net.adj@[v]@[x] == a);
    }
}

/// Settled labels are no larger than the reduced cost of any positive
/// residual walk from a labelled node.
proof fn lemma_settled_walk(net: &ArcNet, flows: Seq<u64>, p: Seq<int>, d: Seq<Option<i128>>, w: Seq<Arc>, from: int, to: int)
    requires
        net.wf(),
        net.complete(),
        labels_settled(net, flows, p, d),
        0 <= from < net.n,
        d[from] is Some,
        res_walk(net, flows, w, from, to),
    ensures
        d[to] is Some,
        d[to]->0 <= d[from]->0 + walk_reduced(net, p, w, w.len() as int),
    decreases w.len(),
{
    if w.len() > 0 {
        let k = w.len() - 1;
        let a = w[k];
        let front = w.subrange(0, k);
        let mid = net.arc_tail(a);
        if k > 0 {
            assert(res_walk(net, flows, front, from, mid)) by {
                assert(net.arc_head(w[k - 1]) == net.arc_tail(w[k]));
                assert forall|i: int| 0 <= i < front.len() - 1 implies #[trigger] net.arc_head(front[i]) == net.arc_tail(front[i + 1]) by {
                    assert(net.arc_head(w[i]) == net.arc_tail(w[i + 1]));
                }
            }
            lemma_settled_walk(net, flows, p, d, front, from, mid);
            assert(walk_reduced(net, p, front, k) == walk_reduced(net, p, w, k)) by {
                lemma_walk_reduced_prefix(net, p, w, front, k);
            }
        }
        lemma_settled_arc(net, flows, p, d, a);
        assert(walk_reduced(net, p, w, w.len() as int) == walk_reduced(net, p, w, k) + reduced(net, p, a));
        if k == 0 {
            assert(walk_reduced(net, p, w, 0) == 0);
            assert(mid == from);
        }
    }
}

/// Reduced cost of a prefix depends only on the prefix.
proof fn lemma_walk_reduced_prefix(net: &ArcNet, p: Seq<int>, w: Seq<Arc>, front: Seq<Arc>, k: int)
    requires
        0 <= k <= front.len(),
        k <= w.len(),
        forall|i: int| 0 <= i < k ==> front[i] == w[i],
    ensures
        walk_reduced(net, p, front, k) == walk_reduced(net, p, w, k),
    decreases k,
{
    if k > 0 {
        lemma_walk_reduced_prefix(net, p, w, front, k - 1);
    }
}

/// Settled labels with ranked tight predecessors are the least reduced costs
/// of positive residual walks from the source, and exist exactly for the
/// nodes such a walk reaches.
proof fn lemma_search_labels(net: &ArcNet, flows: Seq<u64>, p: Seq<int>, d: Seq<Option<i128>>, settled: Seq<bool>, pred: Seq<Option<Arc>>, rank: Seq<int>, source: int)
    requires
        net.wf(),
        net.complete(),
        labels_settled(net, flows, p, d),
        pred.len() == net.n,
        d.len() == net.n,
        preds_ok(net, flows, p, d, settled, pred),
        preds_ranked(net, d, pred, rank, source),
        0 <= source < net.n,
        d[source] == Some(0i128),
    ensures
        forall|v: int, w: Seq<Arc>| 0 <= v < net.n && #[trigger] res_walk(net, flows, w, source, v) ==>
            d[v] is Some && d[v]->0 <= walk_reduced(net, p, w, w.len() as int),
        forall|v: int| 0 <= v < net.n && (#[trigger] d[v]) is Some ==> exists|w: Seq<Arc>|
            res_walk(net, flows, w, source, v) && #[trigger] walk_reduced(net, p, w, w.len() as int) == d[v]->0,
{
    assert forall|v: int, w: Seq<Arc>| 0 <= v < net.n && #[trigger] res_walk(net, flows, w, source, v) implies
        d[v] is Some && d[v]->0 <= walk_reduced(net, p, w, w.len() as int) by {
        lemma_settled_walk(net, flows, p, d, w, source, v);
    }
    assert forall|v: int| 0 <= v < net.n && (#[trigger] d[v]) is Some implies exists|w: Seq<Arc>|
        res_walk(net, flows, w, source, v) && #[trigger] walk_reduced(net, p, w, w.len() as int) == d[v]->0 by {
        let w = lemma_label_attained(net, flows, p, d, settled, pred, rank, source, v);
    }
}

/// Following tight predecessor arcs down the settling rank reaches every
/// labelled node from the source by a walk whose reduced cost is its label.
proof fn lemma_label_attained(net: &ArcNet, flows: Seq<u64>, p: Seq<int>, d: Seq<Option<i128>>, settled: Seq<bool>, pred: Seq<Option<Arc>>, rank: Seq<int>, source: int, v: int) -> (w: Seq<Arc>)
    requires
        net.wf(),
        pred.len() == net.n,
        d.len() == net.n,
        preds_ok(net, flows, p, d, settled, pred),
        preds_ranked(net, d, pred, rank, source),
        0 <= source < net.n,
        d[source] == Some(0i128),
        0 <= v < net.n,
        d[v] is Some,
    ensures
        res_walk(net, flows, w, source, v),
        walk_reduced(net, p, w, w.len() as int) == d[v]->0,
    decreases rank[v],
{
    if v == source {
        Seq::empty()
    } else {
        let b = pred[v]->0;
        let u = net.arc_tail(b);
        assert(0 <= u < net.n) by {
            assert(net.tail@[b.0 as int] < net.n && net.head@[b.0 as int] < net.n);
        }
        assert(rank[u] < rank[v]);
        assert(0 <= rank[u]);
        let front = lemma_label_attained(net, flows, p, d, settled, pred, rank, source, u);
        let w = front.push(b);
        assert(walk_reduced(net, p, w, front.len() as int) == walk_reduced(net, p, front, front.len() as int)) by {
            lemma_walk_reduced_prefix(net, p, w, front, front.len() as int);
        }
        assert forall|i: int| 0 <= i < w.len() - 1 implies #[trigger] net.arc_head(w[i]) == net.arc_tail(w[i + 1]) by {
            if i < front.len() - 1 {
                assert(net.arc_head(front[i]) == net.arc_tail(front[i + 1]));
            }
        }
        assert forall|i: int| 0 <= i < w.len() implies (#[trigger] w[i]).0 < net.m() && res_cap(net, flows, w[i]) > 0 by {
            if i < front.len() {
                assert(w[i] == front[i]);
            }
        }
        w
    }
}

/// The shift a price receives: its label capped at the cutoff, or the cutoff
/// itself for an unlabelled node.
pub open spec fn capped(d: Option<i128>, cutoff: int) -> int {
    match d {
        Some(x) => if x < cutoff { x as int } else { cutoff },
        None => cutoff,
    }
}

/// Prices after the cutoff update.
pub open spec fn shifted(p: Seq<int>, d: Seq<Option<i128>>, cutoff: int) -> Seq<int> {
    Seq::new(p.len(), |v: int| p[v] + capped(d[v], cutoff))
}

/// Raising every price by its settled label, capped at a common cutoff (and
/// by the cutoff where a node has no label), keeps every reduced cost of a
/// positive residual arc nonnegative. Nodes the search never reached all move
/// by the same amount, so arcs among them keep their reduced costs.
pub proof fn lemma_cutoff_update_keeps_prices_feasible(net: &ArcNet, flows: Seq<u64>, p: Seq<int>, d: Seq<Option<i128>>, cutoff: int)
    requires
        net.wf(),
        p.len() == net.n,
        d.len() == net.n,
        prices_feasible(net, flows, p),
        labels_settled(net, flows, p, d),
    ensures
        prices_feasible(net, flows, shifted(p, d, cutoff)),
{
    let q = shifted(p, d, cutoff);
    assert forall|v: int, i: int| 0 <= v < net.n && 0 <= i < net.adj@[v]@.len() implies {
        let a = #[trigger] net.adj@[v]@[i];
        res_cap(net, flows, a) > 0 ==> reduced(net, q, a) >= 0
    } by {
        let a = net.adj@[v]@[i];
        if res_cap(net, flows, a) > 0 {
            let u = net.arc_tail(a);
            let w = net.arc_head(a);
            assert(u == v);
            assert(0 <= w < net.n) by {
                assert(net.tail@[a.0 as int] < net.n && net.head@[a.0 as int] < net.n);
            }
            assert(reduced(net, p, a) >= 0);
            assert(q[u] == p[u] + capped(d[u], cutoff));
            assert(q[w] == p[w] + capped(d[w], cutoff));
        }
    }
}

/// An error that arises only after admission and the feasibility precheck,
/// and never from a broken predecessor chain.
pub open spec fn late(r: Result<(), PotentialDijkstraSspError>) -> bool {
    r matches Err(e) ==> !(e is AdmissionLimit) && !(e is Feasibility) && !(e is PredecessorInvariant)
}

/// Along a tight path to `t`, no label exceeds `t`'s label.
proof fn lemma_path_below_cutoff(net: &ArcNet, flows: Seq<u64>, p: Seq<int>, d: Seq<Option<i128>>, path: Seq<Arc>, t: int, i: int)
    requires
        tight_path(net, flows, p, d, path, t),
        0 <= i < path.len(),
    ensures
        d[net.arc_head(path[i])]->0 <= d[t]->0,
        d[net.arc_tail(path[i])]->0 <= d[t]->0,
    decreases path.len() - i,
{
    assert(tight_arc(net, flows, p, d, path[i]));
    if i < path.len() - 1 {
        lemma_path_below_cutoff(net, flows, p, d, path, t, i + 1);
        assert(net.arc_head(path[i]) == net.arc_tail(path[i + 1]));
    }
}

/// One potential-Dijkstra phase keeps the potentials dual feasible. If the
/// prices are feasible for the flows, every labelled node's positive residual
/// arcs reach labelled nodes within their reduced costs, and the flows change
/// only along a tight path to `t` (rising on its forward arcs, falling on its
/// backward arcs), then the prices raised by the labels capped at `t`'s label
/// (and by that label where a node has none) are feasible for the new flows.
pub proof fn lemma_phase_keeps_prices_feasible(
    net: &ArcNet,
    before: Seq<u64>,
    after: Seq<u64>,
    p: Seq<int>,
    d: Seq<Option<i128>>,
    path: Seq<Arc>,
    t: int,
)
    requires
        net.wf(),
        net.bounded(before),
        net.bounded(after),
        p.len() == net.n,
        d.len() == net.n,
        prices_feasible(net, before, p),
        labels_settled(net, before, p, d),
        tight_path(net, before, p, d, path, t),
        pushed_along(before, after, path),
    ensures
        prices_feasible(net, after, shifted(p, d, d[t]->0 as int)),
{
    let c = d[t]->0 as int;
    let q = shifted(p, d, c);
    lemma_cutoff_update_keeps_prices_feasible(net, before, p, d, c);
    assert forall|v: int, i: int| 0 <= v < net.n && 0 <= i < net.adj@[v]@.len() implies {
        let a = #[trigger] net.adj@[v]@[i];
        res_cap(net, after, a) > 0 ==> reduced(net, q, a) >= 0
    } by {
        let a = net.adj@[v]@[i];
        let k = a.0 as int;
        if res_cap(net, after, a) > 0 && res_cap(net, before, a) <= 0 {
            assert(0 <= net.tail@[k] < net.n && 0 <= net.head@[k] < net.n);
            let j = if a.1 {
                assert(after[k] < before[k]);
                choose|j: int| 0 <= j < path.len() && path[j] == (k as usize, false)
            } else {
                assert(after[k] > before[k]);
                choose|j: int| 0 <= j < path.len() && path[j] == (k as usize, true)
            };
            let b = path[j];
            assert(b.0 == a.0 && b.1 != a.1);
            assert(tight_arc(net, before, p, d, b));
            lemma_path_below_cutoff(net, before, p, d, path, t, j);
            assert(net.arc_tail(b) == net.arc_head(a));
            assert(net.arc_head(b) == net.arc_tail(a));
            assert(q[net.arc_tail(b)] == p[net.arc_tail(b)] + d[net.arc_tail(b)]->0);
            assert(q[net.arc_head(b)] == p[net.arc_head(b)] + d[net.arc_head(b)]->0);
        }
    }
}

/// A network's feasible potentials are feasible prices for its arc lists.
proof fn lemma_network_prices(g: FlowNetwork, net: &ArcNet, flows: Seq<u64>, p: Seq<int>)
    requires
        net.wf(),
        net.n == g.n(),
        net.m() == g.m(),
        forall|k: int| 0 <= k < g.m() ==> {
            let e = #[trigger] g.edge_seq()[k];
            &&& net.tail@[k] == e.from@
            &&& net.head@[k] == e.to@
            &&& net.lower@[k] == e.lower
            &&& net.cap@[k] == e.capacity
            &&& net.cost@[k] == e.cost
        },
        flows.len() == g.m(),
        potentials_feasible(g, ints(flows), p),
    ensures
        prices_feasible(net, flows, p),
{
    assert forall|v: int, i: int| 0 <= v < net.n && 0 <= i < net.adj@[v]@.len() implies {
        let a = #[trigger] net.adj@[v]@[i];
        res_cap(net, flows, a) > 0 ==> reduced(net, p, a) >= 0
    } by {
        let a = net.adj@[v]@[i];
        let k = a.0 as int;
        let e = g.edge_seq()[k];
        assert(ints(flows)[k] == flows[k]);
    }
}

/// One inspected arc inside a Dijkstra search.
struct ScanCheckpoint {
    metrics: PotentialDijkstraSspMetrics,
    arc: Arc,
    distances: Vec<Option<i128>>,
    order: Vec<usize>,
}

/// The outcome of one Dijkstra search from a surplus node.
struct DijkstraSearch {
    sink: Option<usize>,
    path: Option<Vec<Arc>>,
    distances: Vec<Option<i128>>,
    order: Vec<usize>,
    checkpoints: Vec<ScanCheckpoint>,
}

/// Reduced cost of an arc, or `None` when it leaves the `i128` range.
fn reduced_cost(net: &ArcNet, prices: &Vec<i128>, a: Arc) -> (r: Option<i128>)
    requires
        net.wf(),
        a.0 < net.m(),
        prices@.len() == net.n,
    ensures
        r matches Some(x) ==> x == reduced(net, wide(prices@), a),
{
    let from = net.tail_of(a);
    let to = net.head_of(a);
    proof {
        assert(wide(prices@)[from as int] == prices@[from as int]);
        assert(wide(prices@)[to as int] == prices@[to as int]);
    }
    match net.arc_cost(a).checked_add(prices[from]) {
        Some(x) => x.checked_sub(prices[to]),
        None => None,
    }
}

fn ov<T>() -> (r: Result<T, PotentialDijkstraSspError>)
    ensures
        r == Err::<T, PotentialDijkstraSspError>(PotentialDijkstraSspError::ArithmeticOverflow),
{
    Err(PotentialDijkstraSspError::ArithmeticOverflow)
}

/// A residual arc of positive capacity and nonnegative reduced cost whose
/// head's label is exactly its tail's label plus that reduced cost.
pub open spec fn tight_arc(net: &ArcNet, flows: Seq<u64>, p: Seq<int>, d: Seq<Option<i128>>, b: Arc) -> bool {
    &&& b.0 < net.m()
    &&& res_cap(net, flows, b) > 0
    &&& reduced(net, p, b) >= 0
    &&& d[net.arc_tail(b)] is Some
    &&& d[net.arc_head(b)] is Some
    &&& d[net.arc_head(b)]->0 == d[net.arc_tail(b)]->0 + reduced(net, p, b)
}

/// A path of tight arcs, each starting where the previous one ends, that
/// ends at the labelled node `t`.
pub open spec fn tight_path(net: &ArcNet, flows: Seq<u64>, p: Seq<int>, d: Seq<Option<i128>>, path: Seq<Arc>, t: int) -> bool {
    &&& 0 <= t < d.len()
    &&& d[t] is Some
    &&& forall|i: int| 0 <= i < path.len() ==> tight_arc(net, flows, p, d, #[trigger] path[i])
    &&& forall|i: int| 0 <= i < path.len() - 1 ==> net.arc_head(#[trigger] path[i]) == net.arc_tail(path[i + 1])
    &&& path.len() > 0 ==> net.arc_head(path[path.len() - 1]) == t
}

/// Every positive residual arc leaving `v` reaches a labelled node within
/// its reduced cost.
spec fn settled_ok(net: &ArcNet, flows: Seq<u64>, p: Seq<int>, d: Seq<Option<i128>>, v: int) -> bool {
    forall|i: int| 0 <= i < net.adj@[v]@.len() ==> {
        let a = #[trigger] net.adj@[v]@[i];
        res_cap(net, flows, a) > 0 ==> (d[net.arc_head(a)] is Some && d[net.arc_head(a)]->0 <= d[v]->0 + reduced(net, p, a))
    }
}

/// Each recorded predecessor arc is tight, leaves a settled node, and enters
/// the node it is recorded for.
spec fn preds_ok(net: &ArcNet, flows: Seq<u64>, p: Seq<int>, d: Seq<Option<i128>>, settled: Seq<bool>, pred: Seq<Option<Arc>>) -> bool {
    forall|v: int| 0 <= v < net.n ==> ((#[trigger] pred[v]) matches Some(b) ==> {
        &&& tight_arc(net, flows, p, d, b)
        &&& net.arc_head(b) == v
        &&& settled[net.arc_tail(b)]
    })
}

/// Predecessor arcs climb in settling rank: the tail of each was settled
/// before its head, and every labelled node but the source has one.
spec fn preds_ranked(net: &ArcNet, d: Seq<Option<i128>>, pred: Seq<Option<Arc>>, rank: Seq<int>, source: int) -> bool {
    &&& rank.len() == net.n
    &&& forall|v: int| 0 <= v < net.n ==> 0 <= #[trigger] rank[v] <= net.n
    &&& forall|v: int| 0 <= v < net.n ==> ((#[trigger] pred[v]) matches Some(b) ==> rank[net.arc_tail(b)] < rank[v])
    &&& forall|v: int| 0 <= v < net.n && v != source && (#[trigger] d[v]) is Some ==> pred[v] is Some
}

/// All `n` entries counted as true means every entry is true.
proof fn lemma_count_true_full(s: Seq<bool>, k: int)
    requires
        0 <= k <= s.len(),
        count_true(s, k) == k,
    ensures
        forall|i: int| 0 <= i < k ==> s[i],
    decreases k,
{
    if k > 0 {
        lemma_count_true_bounds(s, k - 1);
        lemma_count_true_full(s, k - 1);
    }
}

/// Follows predecessor arcs from `sink` back to `source`, at most `n` arcs,
/// and returns them in path order.
#[verifier::rlimit(90)]
#[verifier::spinoff_prover]
fn follow_tight_path(
    net: &ArcNet,
    pred: &Vec<Option<Arc>>,
    source: usize,
    sink: usize,
    Ghost(flows): Ghost<Seq<u64>>,
    Ghost(p): Ghost<Seq<int>>,
    Ghost(d): Ghost<Seq<Option<i128>>>,
    Ghost(settled): Ghost<Seq<bool>>,
    Ghost(rank): Ghost<Seq<int>>,
) -> (r: Option<Vec<Arc>>)
    requires
        net.wf(),
        pred@.len() == net.n,
        d.len() == net.n,
        preds_ok(net, flows, p, d, settled, pred@),
        preds_ranked(net, d, pred@, rank, source as int),
        source < net.n,
        sink < net.n,
        d[sink as int] is Some,
    ensures
        r is Some,
        r matches Some(path) ==> arcs_ok(net, path@) && tight_path(net, flows, p, d, path@, sink as int),
        r matches Some(path) ==> distinct_edges(path@),
        r matches Some(path) ==> (sink != source ==> path@.len() > 0 && net.arc_tail(path@[0]) == source),
{
    let n = net.n;
    let mut reversed: Vec<Arc> = Vec::new();
    let mut cursor = sink;
    while cursor != source
        invariant
            net.wf(),
            n == net.n,
            pred@.len() == n,
            d.len() == n,
            preds_ok(net, flows, p, d, settled, pred@),
            preds_ranked(net, d, pred@, rank, source as int),
            source < n,
            cursor < n,
            d[cursor as int] is Some,
            reversed@.len() <= n,
            reversed@.len() + rank[cursor as int] <= rank[sink as int],
            forall|j: int| 0 <= j < reversed@.len() ==> tight_arc(net, flows, p, d, #[trigger] reversed@[j]),
            forall|j: int| 0 <= j < reversed@.len() - 1 ==> net.arc_tail(#[trigger] reversed@[j]) == net.arc_head(reversed@[j + 1]),
            reversed@.len() > 0 ==> net.arc_head(reversed@[0]) == sink,
            reversed@.len() > 0 ==> net.arc_tail(reversed@[reversed@.len() - 1]) == cursor,
            reversed@.len() == 0 ==> cursor == sink,
            forall|j: int| 0 <= j < reversed@.len() ==> rank[net.arc_tail(#[trigger] reversed@[j])] < rank[net.arc_head(reversed@[j])],
            forall|j: int| 0 <= j < reversed@.len() ==> rank[cursor as int] <= rank[net.arc_tail(#[trigger] reversed@[j])],
            forall|i: int, j: int| 0 <= i < j < reversed@.len() ==> rank[net.arc_head(#[trigger] reversed@[j])] <= rank[net.arc_tail(#[trigger] reversed@[i])],
        decreases rank[cursor as int],
    {
        let a = match pred[cursor] {
            Some(a) => a,
            None => return None,
        };
        assert(tight_arc(net, flows, p, d, a) && net.arc_head(a) == cursor);
        proof {
            assert(rank[net.arc_tail(a)] < rank[cursor as int]);
            assert(0 <= rank[net.arc_tail(a)]) by {
                assert(0 <= net.arc_tail(a) < n) by {
                    assert(net.tail@[a.0 as int] < n && net.head@[a.0 as int] < n);
                }
            }
        }
        if net.head_of(a) != cursor || reversed.len() >= n {
            return None;
        }
        let ghost before = reversed@;
        let ghost old_cursor = cursor as int;
        reversed.push(a);
        cursor = net.tail_of(a);
        proof {
            let len = reversed@.len() as int;
            assert forall|i: int, j: int| 0 <= i < j < len implies rank[net.arc_head(#[trigger] reversed@[j])] <= rank[net.arc_tail(#[trigger] reversed@[i])] by {
                if j == len - 1 {
                    assert(reversed@[j] == a);
                    assert(reversed@[i] == before[i]);
                }
            }
            assert forall|j: int| 0 <= j < len implies rank[cursor as int] <= rank[net.arc_tail(#[trigger] reversed@[j])] by {
                if j < len - 1 {
                    assert(reversed@[j] == before[j]);
                }
            }
            assert forall|j: int| 0 <= j < len - 1 implies net.arc_tail(#[trigger] reversed@[j]) == net.arc_head(reversed@[j + 1]) by {
                if j < len - 2 {
                    assert(reversed@[j] == before[j] && reversed@[j + 1] == before[j + 1]);
                } else {
                    assert(reversed@[j] == before[len - 2]);
                }
            }
        }
    }
    proof {
        let len = reversed@.len() as int;
        assert forall|i: int, j: int| 0 <= i < j < len implies (#[trigger] reversed@[i]).0 != (#[trigger] reversed@[j]).0 by {
            let x = reversed@[i];
            let y = reversed@[j];
            assert(rank[net.arc_head(y)] <= rank[net.arc_tail(x)]);
            assert(rank[net.arc_tail(x)] < rank[net.arc_head(x)]);
            assert(rank[net.arc_tail(y)] < rank[net.arc_head(y)]);
        }
    }
    let len = reversed.len();
    let mut path: Vec<Arc> = Vec::new();
    let mut j = len;
    while j > 0
        invariant
            j <= len,
            len == reversed@.len(),
            path@.len() == len - j,
            forall|x: int| 0 <= x < path@.len() ==> path@[x] == reversed@[len - 1 - x],
        decreases j,
    {
        j = j - 1;
        path.push(reversed[j]);
    }
    proof {
        assert forall|x: int, y: int| 0 <= x < y < path@.len() implies (#[trigger] path@[x]).0 != (#[trigger] path@[y]).0 by {
            assert(path@[x] == reversed@[len - 1 - x]);
            assert(path@[y] == reversed@[len - 1 - y]);
        }
        if sink != source {
            assert(path@[0] == reversed@[len - 1]);
        }
        assert forall|x: int| 0 <= x < path@.len() implies tight_arc(net, flows, p, d, #[trigger] path@[x]) by {
            assert(path@[x] == reversed@[len - 1 - x]);
        }
        assert forall|x: int| 0 <= x < path@.len() implies (#[trigger] path@[x]).0 < net.m() by {
            assert(path@[x] == reversed@[len - 1 - x]);
        }
        assert forall|x: int| 0 <= x < path@.len() - 1 implies net.arc_head(#[trigger] path@[x]) == net.arc_tail(path@[x + 1]) by {
            assert(path@[x] == reversed@[len - 1 - x]);
            assert(path@[x + 1] == reversed@[len - 2 - x]);
            assert(net.arc_tail(reversed@[len - 2 - x]) == net.arc_head(reversed@[len - 2 - x + 1]));
        }
        if path@.len() > 0 {
            assert(path@[path@.len() - 1] == reversed@[0]);
        }
    }
    Some(path)
}

/// A node with a deficit left and a label from the search.
pub open spec fn is_deficit_label(remaining: Seq<i128>, d: Seq<Option<i128>>, x: int) -> bool {
    remaining[x] < 0 && d[x] is Some
}

/// A labelled node's distance in original costs: its reduced-cost label
/// plus its price, less the source's price.
pub open spec fn original_distance(d: Seq<Option<i128>>, prices: Seq<i128>, source: int, x: int) -> int {
    d[x]->0 + prices[x] - prices[source]
}

/// Dijkstra from `source` over the positive residual arcs with reduced costs,
/// settling nodes in order of (distance, position); then the deficit node of
/// least original-cost distance (ties by position) and its predecessor path.
///
/// On success every labelled node's positive residual arcs reach labelled
/// nodes within their reduced costs, and the returned path is tight.
#[verifier::rlimit(80)]
fn reduced_cost_shortest_path_to_deficit(
    net: &ArcNet,
    flows: &Vec<u64>,
    source: usize,
    remaining: &Vec<i128>,
    prices: &Vec<i128>,
    metrics: &mut PotentialDijkstraSspMetrics,
    record: bool,
) -> (r: Result<DijkstraSearch, PotentialDijkstraSspError>)
    requires
        net.wf(),
        net.complete(),
        net.bounded(flows@),
        source < net.n,
        remaining@.len() == net.n,
        prices@.len() == net.n,
    ensures
        r matches Ok(s) ==> s.distances@[source as int] == Some(0i128),
        r matches Ok(s) ==> forall|v: int, w: Seq<Arc>| 0 <= v < net.n && #[trigger] res_walk(net, flows@, w, source as int, v) ==>
            s.distances@[v] is Some && s.distances@[v]->0 <= walk_reduced(net, wide(prices@), w, w.len() as int),
        r matches Ok(s) ==> forall|v: int| 0 <= v < net.n && (#[trigger] s.distances@[v]) is Some ==> exists|w: Seq<Arc>|
            res_walk(net, flows@, w, source as int, v) && #[trigger] walk_reduced(net, wide(prices@), w, w.len() as int) == s.distances@[v]->0,
        r matches Ok(s) ==> s.distances@.len() == net.n && (s.path matches Some(p) ==> arcs_ok(net, p@))
            && (s.sink matches Some(t) ==> t < net.n && s.distances@[t as int] is Some)
            && labels_settled(net, flows@, wide(prices@), s.distances@)
            && (s.path matches Some(p) ==> s.sink matches Some(t) && tight_path(net, flows@, wide(prices@), s.distances@, p@, t as int)),
        r matches Ok(s) ==> (s.sink is Some ==> s.path is Some),
        r matches Ok(s) ==> (s.sink is None <==> forall|x: int| 0 <= x < net.n ==> !(#[trigger] is_deficit_label(remaining@, s.distances@, x))),
        r matches Ok(s) ==> (s.sink matches Some(t) ==> is_deficit_label(remaining@, s.distances@, t as int)
            && forall|x: int| 0 <= x < net.n && #[trigger] is_deficit_label(remaining@, s.distances@, x) ==>
                original_distance(s.distances@, prices@, source as int, t as int) <= original_distance(s.distances@, prices@, source as int, x)
                && (x < t ==> original_distance(s.distances@, prices@, source as int, t as int) < original_distance(s.distances@, prices@, source as int, x))),
        r matches Ok(s) ==> (s.sink matches Some(t) ==> remaining@[t as int] < 0),
        r matches Ok(s) ==> (s.path matches Some(p) ==> distinct_edges(p@)
            && (s.sink matches Some(t) ==> t != source ==> p@.len() > 0)),
        final(metrics).augmentations == old(metrics).augmentations,
        final(metrics).potential_updates == old(metrics).potential_updates,
        r matches Err(e) ==> !(e is AdmissionLimit) && !(e is Feasibility) && !(e is PredecessorInvariant) && !(e is AugmentationLimit),
        prices_feasible(net, flows@, wide(prices@)) ==> !(r matches Err(PotentialDijkstraSspError::NegativeReducedCost)),
{
    let n = net.n;
    let ghost pw = wide(prices@);
    if metrics.dijkstra_runs == u64::MAX {
        return ov();
    }
    metrics.dijkstra_runs = metrics.dijkstra_runs + 1;
    let mut distance = none_labels(n);
    let mut pred: Vec<Option<Arc>> = Vec::new();
    let mut settled: Vec<bool> = Vec::new();
    let mut v: usize = 0;
    while v < n
        invariant
            v <= n,
            pred@.len() == v,
            settled@.len() == v,
            forall|u: int| 0 <= u < v ==> (#[trigger] pred@[u]) is None,
            forall|u: int| 0 <= u < v ==> !(#[trigger] settled@[u]),
        decreases n - v,
    {
        pred.push(None);
        settled.push(false);
        v = v + 1;
    }
    let mut order: Vec<usize> = Vec::new();
    let mut checkpoints: Vec<ScanCheckpoint> = Vec::new();
    proof {
        lemma_count_true_none(settled@, n as int);
    }
    distance.set(source, Some(0));
    let ghost mut frontier: int = 0;
    let ghost mut complete: bool = false;
    let ghost mut rank: Seq<int> = Seq::new(n as nat, |x: int| n as int);
    let ghost mut next: int = 0;
    let mut round: usize = 0;
    while round < n
        invariant
            distance@[source as int] == Some(0i128),
            forall|x: int| 0 <= x < n && (#[trigger] distance@[x]) is Some ==> distance@[x]->0 >= 0,
            preds_ranked(net, distance@, pred@, rank, source as int),
            complete ==> round == n,
            !complete ==> next == round,
            0 <= next <= n,
            forall|x: int| 0 <= x < n && #[trigger] settled@[x] ==> rank[x] < next,
            forall|x: int| 0 <= x < n && !(#[trigger] settled@[x]) ==> rank[x] == n,
            net.wf(),
            net.bounded(flows@),
            n == net.n,
            source < n,
            prices@.len() == n,
            pw == wide(prices@),
            distance@.len() == n,
            pred@.len() == n,
            settled@.len() == n,
            round <= n,
            complete || count_true(settled@, n as int) == round,
            complete ==> forall|x: int| 0 <= x < n && !settled@[x] ==> (#[trigger] distance@[x]) is None,
            forall|x: int| 0 <= x < n && settled@[x] ==> (#[trigger] distance@[x]) is Some && distance@[x]->0 <= frontier,
            forall|x: int| 0 <= x < n && !settled@[x] && (#[trigger] distance@[x]) is Some ==> distance@[x]->0 >= frontier,
            forall|x: int| 0 <= x < n && #[trigger] settled@[x] ==> settled_ok(net, flows@, pw, distance@, x),
            preds_ok(net, flows@, pw, distance@, settled@, pred@),
            metrics.augmentations == old(metrics).augmentations,
            metrics.potential_updates == old(metrics).potential_updates,
        decreases n - round,
    {
        let mut best: Option<usize> = None;
        let mut best_d: i128 = 0;
        let mut u: usize = 0;
        while u < n
            invariant
                u <= n,
                n == distance@.len(),
                settled@.len() == n,
                best matches Some(b) ==> b < n && !settled@[b as int] && distance@[b as int] == Some(best_d),
                forall|x: int| 0 <= x < u && !settled@[x] && (#[trigger] distance@[x]) is Some ==> best is Some && distance@[x]->0 >= best_d,
            decreases n - u,
        {
            if !settled[u] {
                match distance[u] {
                    Some(d) => {
                        if best.is_none() || d < best_d {
                            best = Some(u);
                            best_d = d;
                        }
                    },
                    None => {},
                }
            }
            u = u + 1;
        }
        let node = match best {
            Some(b) => b,
            None => {
                proof {
                    complete = true;
                }
                round = n;
                continue;
            },
        };
        proof {
            frontier = best_d as int;
            lemma_count_true_set(settled@, node as int, n as int);
            rank = rank.update(node as int, next);
            next = next + 1;
        }
        settled.set(node, true);
        order.push(node);
        if metrics.settled_nodes == u128::MAX {
            return ov();
        }
        metrics.settled_nodes = metrics.settled_nodes + 1;
        let arcs = &net.adj[node];
        let mut i: usize = 0;
        while i < arcs.len()
            invariant
                net.wf(),
                net.bounded(flows@),
                n == net.n,
                node < n,
                arcs == &net.adj@[node as int],
                i <= arcs@.len(),
                prices@.len() == n,
                pw == wide(prices@),
                distance@.len() == n,
                pred@.len() == n,
                settled@.len() == n,
                settled@[node as int],
                distance@[node as int] == Some(best_d),
                frontier == best_d,
                count_true(settled@, n as int) == round + 1,
                forall|x: int| 0 <= x < n && settled@[x] ==> (#[trigger] distance@[x]) is Some && distance@[x]->0 <= frontier,
                forall|x: int| 0 <= x < n && !settled@[x] && (#[trigger] distance@[x]) is Some ==> distance@[x]->0 >= frontier,
                forall|x: int| 0 <= x < n && #[trigger] settled@[x] && x != node ==> settled_ok(net, flows@, pw, distance@, x),
                forall|j: int| 0 <= j < i ==> {
                    let a = #[trigger] net.adj@[node as int]@[j];
                    res_cap(net, flows@, a) > 0 ==> (distance@[net.arc_head(a)] is Some && distance@[net.arc_head(a)]->0 <= best_d + reduced(net, pw, a))
                },
                preds_ok(net, flows@, pw, distance@, settled@, pred@),
                metrics.augmentations == old(metrics).augmentations,
                metrics.potential_updates == old(metrics).potential_updates,
                source < n,
                distance@[source as int] == Some(0i128),
                forall|x: int| 0 <= x < n && (#[trigger] distance@[x]) is Some ==> distance@[x]->0 >= 0,
                preds_ranked(net, distance@, pred@, rank, source as int),
                next == round + 1,
                round < n,
                0 <= next <= n,
                forall|x: int| 0 <= x < n && #[trigger] settled@[x] ==> rank[x] < next,
                forall|x: int| 0 <= x < n && !(#[trigger] settled@[x]) ==> rank[x] == n,
            decreases arcs@.len() - i,
        {
            let a = arcs[i];
            assert(a == net.adj@[node as int]@[i as int]);
            if net.residual(flows, a) == 0 {
                i = i + 1;
                continue;
            }
            if metrics.residual_arc_scans == u128::MAX {
                return ov();
            }
            metrics.residual_arc_scans = metrics.residual_arc_scans + 1;
            let rc = match reduced_cost(net, prices, a) {
                Some(x) => x,
                None => return ov(),
            };
            if rc < 0 {
                proof {
                    assert(net.adj@[node as int]@[i as int] == a);
                }
                return Err(PotentialDijkstraSspError::NegativeReducedCost);
            }
            let candidate = match best_d.checked_add(rc) {
                Some(c) => c,
                None => return ov(),
            };
            let to = net.head_of(a);
            let improves = match distance[to] {
                Some(current) => candidate < current,
                None => true,
            };
            if improves {
                let ghost before = distance@;
                proof {
                    assert(!settled@[to as int]);
                }
                let ghost pred_before = pred@;
                distance.set(to, Some(candidate));
                pred.set(to, Some(a));
                proof {
                    assert(preds_ranked(net, distance@, pred@, rank, source as int)) by {
                        assert forall|v: int| 0 <= v < net.n implies ((#[trigger] pred@[v]) matches Some(b) ==> rank[net.arc_tail(b)] < rank[v]) by {
                            if v == to as int {
                                assert(rank[node as int] < next);
                                assert(rank[v] == n);
                            } else {
                                assert(pred@[v] == pred_before[v]);
                            }
                        }
                    }
                    assert forall|x: int| 0 <= x < n && #[trigger] settled@[x] && x != node implies settled_ok(net, flows@, pw, distance@, x) by {
                        assert(settled_ok(net, flows@, pw, before, x));
                        assert(x != to);
                        assert forall|k: int| 0 <= k < net.adj@[x]@.len() implies {
                            let b = #[trigger] net.adj@[x]@[k];
                            res_cap(net, flows@, b) > 0 ==> (distance@[net.arc_head(b)] is Some && distance@[net.arc_head(b)]->0 <= distance@[x]->0 + reduced(net, pw, b))
                        } by {
                            let b = net.adj@[x]@[k];
                            assert(0 <= net.arc_head(b) < n) by {
                                assert(net.tail@[b.0 as int] < n && net.head@[b.0 as int] < n);
                            }
                        }
                    }
                    assert forall|j: int| 0 <= j < i implies {
                        let b = #[trigger] net.adj@[node as int]@[j];
                        res_cap(net, flows@, b) > 0 ==> (distance@[net.arc_head(b)] is Some && distance@[net.arc_head(b)]->0 <= best_d + reduced(net, pw, b))
                    } by {
                        let b = net.adj@[node as int]@[j];
                        assert(0 <= net.arc_head(b) < n) by {
                            assert(net.tail@[b.0 as int] < n && net.head@[b.0 as int] < n);
                        }
                    }
                    assert forall|v: int| 0 <= v < net.n implies ((#[trigger] pred@[v]) matches Some(b) ==> {
                        &&& tight_arc(net, flows@, pw, distance@, b)
                        &&& net.arc_head(b) == v
                        &&& settled@[net.arc_tail(b)]
                    }) by {
                        if v != to {
                            match pred@[v] {
                                Some(b) => {
                                    assert(net.arc_tail(b) != to);
                                    assert(0 <= net.arc_head(b) < n && 0 <= net.arc_tail(b) < n) by {
                                        assert(net.tail@[b.0 as int] < n && net.head@[b.0 as int] < n);
                                    }
                                },
                                None => {},
                            }
                        } else {
                            assert(net.arc_tail(a) == node);
                        }
                    }
                }
            }
            if record {
                checkpoints.push(ScanCheckpoint { metrics: *metrics, arc: a, distances: clone_labels(&distance), order: clone_usizes(&order) });
            }
            i = i + 1;
        }
        round = round + 1;
    }
    proof {
        if !complete {
            lemma_count_true_full(settled@, n as int);
        }
        assert forall|v: int, i: int| 0 <= v < net.n && 0 <= i < net.adj@[v]@.len() implies {
            let a = #[trigger] net.adj@[v]@[i];
            (res_cap(net, flows@, a) > 0 && distance@[v] is Some) ==> {
                &&& distance@[net.arc_head(a)] is Some
                &&& distance@[net.arc_head(a)]->0 <= distance@[v]->0 + reduced(net, pw, a)
            }
        } by {
            if distance@[v] is Some {
                assert(settled@[v]);
                assert(settled_ok(net, flows@, pw, distance@, v));
            }
        }
    }
    let mut sink: Option<usize> = None;
    let mut best: i128 = 0;
    let mut u: usize = 0;
    while u < n
        invariant
            u <= n,
            n == net.n,
            source < n,
            remaining@.len() == n,
            prices@.len() == n,
            distance@.len() == n,
            sink matches Some(t) ==> t < n && distance@[t as int] is Some && remaining@[t as int] < 0,
            sink matches Some(t) ==> t < u && best == original_distance(distance@, prices@, source as int, t as int),
            sink matches Some(t) ==> forall|x: int| 0 <= x < u && #[trigger] is_deficit_label(remaining@, distance@, x) ==>
                best <= original_distance(distance@, prices@, source as int, x)
                && (x < t ==> best < original_distance(distance@, prices@, source as int, x)),
            sink is None ==> forall|x: int| 0 <= x < u ==> !(#[trigger] is_deficit_label(remaining@, distance@, x)),
            metrics.augmentations == old(metrics).augmentations,
            metrics.potential_updates == old(metrics).potential_updates,
        decreases n - u,
    {
        if remaining[u] < 0 {
            match distance[u] {
                Some(d) => {
                    let original = match d.checked_add(prices[u]) {
                        Some(x) => match x.checked_sub(prices[source]) {
                            Some(y) => y,
                            None => return ov(),
                        },
                        None => return ov(),
                    };
                    if sink.is_none() || original < best {
                        sink = Some(u);
                        best = original;
                    }
                },
                None => {},
            }
        }
        u = u + 1;
    }
    let t = match sink {
        Some(t) => t,
        None => {
            proof {
                lemma_search_labels(net, flows@, pw, distance@, settled@, pred@, rank, source as int);
            }
            return Ok(DijkstraSearch { sink: None, path: None, distances: distance, order, checkpoints });
        },
    };
    let path = match follow_tight_path(net, &pred, source, t, Ghost(flows@), Ghost(pw), Ghost(distance@), Ghost(settled@), Ghost(rank)) {
        Some(p) => p,
        None => return Err(PotentialDijkstraSspError::PredecessorInvariant),
    };
    proof {
        assert(is_deficit_label(remaining@, distance@, t as int));
        lemma_search_labels(net, flows@, pw, distance@, settled@, pred@, rank, source as int);
    }
    Ok(DijkstraSearch { sink: Some(t), path: Some(path), distances: distance, order, checkpoints })
}

/// No entry counted among all-false entries.
proof fn lemma_count_true_none(s: Seq<bool>, k: int)
    requires
        0 <= k <= s.len(),
        forall|i: int| 0 <= i < k ==> !s[i],
    ensures
        count_true(s, k) == 0,
    decreases k,
{
    if k > 0 {
        lemma_count_true_none(s, k - 1);
    }
}

/// Raises every price by its label capped at the sink's label, and an
/// unlabelled node's price by that label itself.
fn update_feasible_potentials(
    prices: &mut Vec<i128>,
    distances: &Vec<Option<i128>>,
    sink: usize,
    metrics: &mut PotentialDijkstraSspMetrics,
) -> (r: Result<(), PotentialDijkstraSspError>)
    requires
        sink < old(prices)@.len(),
    ensures
        final(prices)@.len() == old(prices)@.len(),
        final(metrics).augmentations == old(metrics).augmentations,
        r matches Err(e) ==> !(e is AdmissionLimit) && !(e is Feasibility) && !(e is AugmentationLimit),
        r == Err::<(), PotentialDijkstraSspError>(PotentialDijkstraSspError::PredecessorInvariant)
            ==> distances@.len() != old(prices)@.len() || distances@[sink as int] is None,
        !(r matches Err(PotentialDijkstraSspError::NegativeReducedCost)),
        r is Ok ==> distances@.len() == old(prices)@.len() && distances@[sink as int] is Some
            && wide(final(prices)@) == shifted(wide(old(prices)@), distances@, distances@[sink as int]->0 as int),
{
    if prices.len() != distances.len() {
        return Err(PotentialDijkstraSspError::PredecessorInvariant);
    }
    let cutoff = match distances[sink] {
        Some(c) => c,
        None => return Err(PotentialDijkstraSspError::PredecessorInvariant),
    };
    let ghost before = prices@;
    let n = prices.len();
    let mut v: usize = 0;
    while v < n
        invariant
            v <= n,
            n == prices@.len(),
            n == before.len(),
            n == distances@.len(),
            n == old(prices)@.len(),
            metrics.augmentations == old(metrics).augmentations,
            forall|u: int| 0 <= u < v ==> prices@[u] as int == before[u] + capped(distances@[u], cutoff as int),
            forall|u: int| v <= u < n ==> prices@[u] == before[u],
        decreases n - v,
    {
        let shift = match distances[v] {
            Some(d) => if d < cutoff { d } else { cutoff },
            None => cutoff,
        };
        match prices[v].checked_add(shift) {
            Some(x) => prices.set(v, x),
            None => return ov(),
        }
        v = v + 1;
    }
    if metrics.potential_updates == u64::MAX {
        return ov();
    }
    metrics.potential_updates = metrics.potential_updates + 1;
    proof {
        assert(wide(prices@) =~= shifted(wide(before), distances@, cutoff as int));
    }
    Ok(())
}

/// Checks that every positive residual arc has a nonnegative reduced cost.
fn validate_reduced_costs_nonnegative(net: &ArcNet, flows: &Vec<u64>, prices: &Vec<i128>) -> (r: Result<(), PotentialDijkstraSspError>)
    requires
        net.wf(),
        net.bounded(flows@),
        prices@.len() == net.n,
    ensures
        late(r),
        !(r matches Err(PotentialDijkstraSspError::AugmentationLimit)),
        r is Ok ==> prices_feasible(net, flows@, wide(prices@)),
        prices_feasible(net, flows@, wide(prices@)) ==> !(r matches Err(PotentialDijkstraSspError::NegativeReducedCost)),
{
    let n = net.n;
    let mut v: usize = 0;
    while v < n
        invariant
            net.wf(),
            net.bounded(flows@),
            n == net.n,
            prices@.len() == n,
            v <= n,
            forall|u: int, j: int| 0 <= u < v && 0 <= j < net.adj@[u]@.len() ==> {
                let a = #[trigger] net.adj@[u]@[j];
                res_cap(net, flows@, a) > 0 ==> reduced(net, wide(prices@), a) >= 0
            },
        decreases n - v,
    {
        let arcs = &net.adj[v];
        let mut i: usize = 0;
        while i < arcs.len()
            invariant
                net.wf(),
                net.bounded(flows@),
                n == net.n,
                v < n,
                prices@.len() == n,
                arcs == &net.adj@[v as int],
                i <= arcs@.len(),
                forall|u: int, j: int| 0 <= u < v && 0 <= j < net.adj@[u]@.len() ==> {
                    let a = #[trigger] net.adj@[u]@[j];
                    res_cap(net, flows@, a) > 0 ==> reduced(net, wide(prices@), a) >= 0
                },
                forall|j: int| 0 <= j < i ==> {
                    let a = #[trigger] net.adj@[v as int]@[j];
                    res_cap(net, flows@, a) > 0 ==> reduced(net, wide(prices@), a) >= 0
                },
            decreases arcs@.len() - i,
        {
            let a = arcs[i];
            if net.residual(flows, a) > 0 {
                let rc = match reduced_cost(net, prices, a) {
                    Some(x) => x,
                    None => return ov(),
                };
                if rc < 0 {
                    proof {
                        assert(net.adj@[v as int]@[i as int] == a);
                    }
                    return Err(PotentialDijkstraSspError::NegativeReducedCost);
                }
            }
            i = i + 1;
        }
        v = v + 1;
    }
    Ok(())
}

/// Prices as node labels.
fn price_labels(prices: &Vec<i128>) -> (r: Vec<Option<i128>>)
    ensures
        r@.len() == prices@.len(),
        forall|i: int| 0 <= i < prices@.len() ==> #[trigger] r@[i] == Some(prices@[i]),
{
    let mut out: Vec<Option<i128>> = Vec::new();
    let mut i: usize = 0;
    while i < prices.len()
        invariant
            i <= prices@.len(),
            out@.len() == i,
            forall|j: int| 0 <= j < i ==> #[trigger] out@[j] == Some(prices@[j]),
        decreases prices@.len() - i,
    {
        out.push(Some(prices[i]));
        i = i + 1;
    }
    out
}

fn meta(catalog_id: &'static str, minimum_granularity: TraceGranularityV1, pseudocode_line: &'static str) -> (r: FlowTraceEventMetadata)
    ensures
        r.catalog_id == catalog_id,
        r.minimum_granularity == minimum_granularity,
        r.pseudocode_line == pseudocode_line,
{
    FlowTraceEventMetadata { catalog_id, minimum_granularity, pseudocode_line }
}

/// Records one event; a non-empty path replaces the search order by the
/// path's own node order and is the event's focus.
fn record_dijkstra(
    recorder: &mut Option<FlowTraceRecorder>,
    graph: &FlowNetwork,
    flows: &Vec<u64>,
    metrics: PotentialDijkstraSspMetrics,
    metadata: FlowTraceEventMetadata,
    labels: Vec<Option<i128>>,
    order: &Vec<usize>,
    path: &Vec<Arc>,
    remaining: Vec<i128>,
) -> (r: Result<(), PotentialDijkstraSspError>)
    ensures
        late(r),
        r is Err ==> r matches Err(PotentialDijkstraSspError::Trace(_)),
        (*old(recorder)) is None ==> r is Ok && (*final(recorder)) is None,
        (*old(recorder)) matches Some(before) ==> (*final(recorder)) matches Some(after) && {
            &&& r is Ok ==> after.event_count() == before.event_count() + 1 && after.current_state().0 == flows@
                && after.current_state().1 == labels@ && after.current_state().4 == remaining@
            &&& r is Err ==> after == before
        },
{
    if recorder.is_none() {
        return Ok(());
    }
    let focus = match residual_arc_entity_refs(graph, path) {
        Ok(f) => f,
        Err(e) => return Err(PotentialDijkstraSspError::Trace(e)),
    };
    let shown = if path.len() > 0 {
        match residual_path_node_order(graph, path) {
            Ok(o) => o,
            Err(e) => return Err(PotentialDijkstraSspError::Trace(e)),
        }
    } else {
        clone_usizes(order)
    };
    match record_view(recorder, graph, flows, dijkstra_trace_metrics(metrics), metadata, labels, &shown, path, remaining, None, focus) {
        Ok(()) => Ok(()),
        Err(e) => Err(PotentialDijkstraSspError::Trace(e)),
    }
}

fn dijkstra_internal(
    graph: &FlowNetwork,
    required: &[i128],
    record_trace: bool,
    feasibility: &mut FeasibilityExecution,
) -> (r: Result<(PotentialDijkstraSspResult, Option<TraceParts>), PotentialDijkstraSspError>)
    ensures
        r matches Err(e) ==> (e is AdmissionLimit ==> *final(feasibility) == *old(feasibility)),
        r matches Ok(run) ==> certified_min_cost(*graph, required@, run.0.flows@, run.0.certificate),
        r matches Ok(run) ==> run.0.metrics.augmentations <= POTENTIAL_DIJKSTRA_SSP_MAX_AUGMENTATIONS,
        r matches Ok(run) ==> run.0.metrics.augmentations <= unmet_at_lower(*graph, required@),
        unmet_at_lower(*graph, required@) <= POTENTIAL_DIJKSTRA_SSP_MAX_AUGMENTATIONS
            ==> !(r matches Err(PotentialDijkstraSspError::AugmentationLimit)),
        r matches Ok(run) ==> (run.1 matches Some(t) ==> replayable(t)),
        r == Err::<(PotentialDijkstraSspResult, Option<TraceParts>), PotentialDijkstraSspError>(PotentialDijkstraSspError::AdmissionLimit)
            <==> dijkstra_over_admission(*graph),
        r == Err::<(PotentialDijkstraSspResult, Option<TraceParts>), PotentialDijkstraSspError>(PotentialDijkstraSspError::Feasibility(FeasibilityError::LengthMismatch))
            <==> !dijkstra_over_admission(*graph) && required@.len() != graph.n(),
        r == Err::<(PotentialDijkstraSspResult, Option<TraceParts>), PotentialDijkstraSspError>(PotentialDijkstraSspError::Feasibility(FeasibilityError::Infeasible))
            ==> forall|f: Seq<int>| !#[trigger] feasible_flow(*graph, f, wide(required@)),
        !(r matches Err(PotentialDijkstraSspError::PredecessorInvariant)),
        !(r matches Err(PotentialDijkstraSspError::NegativeReducedCost)),
        r matches Ok(run) ==> (run.1 is Some <==> record_trace),
{
    proof {
        use_type_invariant(graph);
    }
    let n = graph.nodes().len();
    if n > POTENTIAL_DIJKSTRA_SSP_MAX_NODES || graph.edges().len() > POTENTIAL_DIJKSTRA_SSP_MAX_EDGES {
        return Err(PotentialDijkstraSspError::AdmissionLimit);
    }
    match feasibility.find_feasible_flow(graph, required, FeasibilityUse::PrecheckOnly) {
        Ok(_) => {},
        Err(e) => return Err(PotentialDijkstraSspError::Feasibility(e)),
    }
    let mut flows = lower_flows(graph);
    let mut prices = match residual_potentials(graph, flows.as_slice()) {
        Ok(p) => p,
        Err(e) => return Err(PotentialDijkstraSspError::Certificate(e)),
    };
    proof {
        assert(wide(prices@).len() == prices@.len());
    }
    if prices.len() != n {
        return Err(PotentialDijkstraSspError::PredecessorInvariant);
    }
    let mut remaining = match remaining_after(graph, required, &flows) {
        Some(r) => r,
        None => return ov(),
    };
    proof {
        assert(wide(remaining@) =~= Seq::new(graph.n(), |v: int| required@[v] as int - divergence(*graph, lower_flow(*graph), v)));
    }
    let net = ArcNet::from_network(graph);
    proof {
        assert forall|k: int| 0 <= k < net.m() implies net.lower@[k] <= #[trigger] flows@[k] <= net.cap@[k] by {
            assert(ints(flows@)[k] == flows@[k]);
        }
        lemma_network_prices(*graph, &net, flows@, wide(prices@));
    }
    let mut metrics = PotentialDijkstraSspMetrics { augmentations: 0, dijkstra_runs: 0, settled_nodes: 0, residual_arc_scans: 0, potential_updates: 0 };
    let mut recorder: Option<FlowTraceRecorder> = None;
    let empty_order: Vec<usize> = Vec::new();
    let empty: Vec<Arc> = Vec::new();
    if record_trace {
        let snapshot = match FlowTraceSnapshot::capture(graph, &flows, none_labels(n), &empty_order, &empty, copy_remaining(&remaining), dijkstra_trace_metrics(metrics)) {
            Ok(s) => s,
            Err(e) => return Err(PotentialDijkstraSspError::Trace(e)),
        };
        recorder = match FlowTraceRecorder::new(graph, snapshot) {
            Ok(rec) => Some(rec),
            Err(e) => return Err(PotentialDijkstraSspError::Trace(e)),
        };
    }
    record_dijkstra(&mut recorder, graph, &flows, metrics,
        meta("potential-dijkstra-ssp.initial-potentials", TraceGranularityV1::Phase, "potential-dijkstra-ssp:initialize-feasible-potentials"),
        price_labels(&prices), &empty_order, &empty, copy_remaining(&remaining))?;
    loop
        invariant
            net.wf(),
            net.bounded(flows@),
            net.n == n,
            n == graph.n(),
            remaining@.len() == n,
            prices@.len() == n,
            required@.len() == n,
            !dijkstra_over_admission(*graph),
            metrics.augmentations <= POTENTIAL_DIJKSTRA_SSP_MAX_AUGMENTATIONS,
            metrics.augmentations + surplus_sum(wide(remaining@), n as int) <= unmet_at_lower(*graph, required@),
            empty@.len() == 0,
            prices_feasible(&net, flows@, wide(prices@)),
            net.complete(),
            recorder is Some <==> record_trace,
        decreases POTENTIAL_DIJKSTRA_SSP_MAX_AUGMENTATIONS - metrics.augmentations,
    {
        let source = match first_surplus(&remaining) {
            Some(v) => v,
            None => break,
        };
        proof {
            lemma_surplus_at_least(wide(remaining@), source as int, n as int);
        }
        if metrics.augmentations >= POTENTIAL_DIJKSTRA_SSP_MAX_AUGMENTATIONS {
            return Err(PotentialDijkstraSspError::AugmentationLimit);
        }
        let search = reduced_cost_shortest_path_to_deficit(&net, &flows, source, &remaining, &prices, &mut metrics, record_trace)?;
        let mut i: usize = 0;
        while i < search.checkpoints.len()
            invariant
                i <= search.checkpoints@.len(),
                !dijkstra_over_admission(*graph),
                required@.len() == graph.n(),
                recorder is Some <==> record_trace,
            decreases search.checkpoints@.len() - i,
        {
            let c = &search.checkpoints[i];
            let mut one: Vec<Arc> = Vec::new();
            one.push(c.arc);
            record_dijkstra(&mut recorder, graph, &flows, c.metrics,
                meta("potential-dijkstra-ssp.inspect-residual-arc", TraceGranularityV1::Micro, "potential-dijkstra-ssp:inspect-one-reduced-cost-arc"),
                clone_labels(&c.distances), &c.order, &one, copy_remaining(&remaining))?;
            i = i + 1;
        }
        let found: Vec<Arc> = match &search.path {
            Some(p) => crate::max_flow::clone_arcs(p),
            None => Vec::new(),
        };
        record_dijkstra(&mut recorder, graph, &flows, metrics,
            meta("potential-dijkstra-ssp.shortest-path", TraceGranularityV1::Phase, "potential-dijkstra-ssp:dijkstra-reduced-costs"),
            clone_labels(&search.distances), &search.order, &found, copy_remaining(&remaining))?;
        let sink = match search.sink {
            Some(t) => t,
            None => return Err(PotentialDijkstraSspError::MissingPath),
        };
        let path = match search.path {
            Some(p) => p,
            None => return Err(PotentialDijkstraSspError::MissingPath),
        };
        let ghost flows_before = flows@;
        let ghost prices_before = wide(prices@);
        update_feasible_potentials(&mut prices, &search.distances, sink, &mut metrics)?;
        record_dijkstra(&mut recorder, graph, &flows, metrics,
            meta("potential-dijkstra-ssp.update-potentials", TraceGranularityV1::Phase, "potential-dijkstra-ssp:update-potentials"),
            price_labels(&prices), &search.order, &path, copy_remaining(&remaining))?;
        proof {
            assert(path@.len() > 0);
        }
        if net.bottleneck(&flows, &path).is_none() {
            return Err(PotentialDijkstraSspError::PredecessorInvariant);
        }
        let amount = match amount_to_deficit(&net, &flows, &path, source, sink, &remaining) {
            Some(a) => a,
            None => return Err(PotentialDijkstraSspError::MissingPath),
        };
        match net.augment(&mut flows, &path, amount) {
            Ok(()) => {},
            Err(_) => return Err(PotentialDijkstraSspError::PredecessorInvariant),
        }
        proof {
            lemma_phase_keeps_prices_feasible(&net, flows_before, flows@, prices_before, search.distances@, path@, sink as int);
        }
        proof {
            lemma_surplus_send(remaining@, source as int, sink as int, amount as int);
        }
        remaining.set(source, remaining[source] - amount as i128);
        remaining.set(sink, remaining[sink] + amount as i128);
        metrics.augmentations = metrics.augmentations + 1;
        validate_reduced_costs_nonnegative(&net, &flows, &prices)?;
        record_dijkstra(&mut recorder, graph, &flows, metrics,
            meta("potential-dijkstra-ssp.augment", TraceGranularityV1::Operation, "potential-dijkstra-ssp:augment-shortest-path"),
            price_labels(&prices), &search.order, &path, copy_remaining(&remaining))?;
    }
    proof {
        lemma_surplus_at_least(wide(remaining@), 0, n as int);
    }
    if !all_zero(&remaining) {
        return Err(PotentialDijkstraSspError::MissingPath);
    }
    let certificate = match check_min_cost_flow(graph, required, flows.as_slice()) {
        Ok(c) => c,
        Err(e) => return Err(PotentialDijkstraSspError::Certificate(e)),
    };
    record_dijkstra(&mut recorder, graph, &flows, metrics,
        meta("potential-dijkstra-ssp.optimal", TraceGranularityV1::Phase, "potential-dijkstra-ssp:return-minimum-cost-flow"),
        none_labels(n), &empty_order, &empty, copy_remaining(&remaining))?;
    let trace = match recorder {
        Some(rec) => Some(rec.finish()),
        None => None,
    };
    Ok((PotentialDijkstraSspResult { flows, certificate, metrics }, trace))
}

/// Solves exact balanced min-cost flow with feasible potentials and Dijkstra.
///
/// Initial potentials come from a Bellman–Ford check of the lower-bound
/// pseudoflow's residual graph; every later search uses only nonnegative
/// reduced costs, and potentials move by distances capped at the chosen
/// deficit's distance, so unreachable components stay dual feasible.
pub fn solve_potential_dijkstra_ssp(graph: &FlowNetwork, required_divergence: &[i128]) -> (r: Result<PotentialDijkstraSspResult, PotentialDijkstraSspError>)
    ensures
        r matches Ok(res) ==> certified_min_cost(*graph, required_divergence@, res.flows@, res.certificate),
        r matches Ok(res) ==> res.metrics.augmentations <= POTENTIAL_DIJKSTRA_SSP_MAX_AUGMENTATIONS,
        r matches Ok(res) ==> res.metrics.augmentations <= unmet_at_lower(*graph, required_divergence@),
        unmet_at_lower(*graph, required_divergence@) <= POTENTIAL_DIJKSTRA_SSP_MAX_AUGMENTATIONS
            ==> !(r matches Err(PotentialDijkstraSspError::AugmentationLimit)),
        r == Err::<PotentialDijkstraSspResult, PotentialDijkstraSspError>(PotentialDijkstraSspError::AdmissionLimit) <==> dijkstra_over_admission(*graph),
        !(r matches Err(PotentialDijkstraSspError::PredecessorInvariant)),
        !(r matches Err(PotentialDijkstraSspError::NegativeReducedCost)),
        r == Err::<PotentialDijkstraSspResult, PotentialDijkstraSspError>(PotentialDijkstraSspError::Feasibility(FeasibilityError::LengthMismatch))
            <==> !dijkstra_over_admission(*graph) && required_divergence@.len() != graph.n(),
        r == Err::<PotentialDijkstraSspResult, PotentialDijkstraSspError>(PotentialDijkstraSspError::Feasibility(FeasibilityError::Infeasible))
            ==> forall|f: Seq<int>| !#[trigger] feasible_flow(*graph, f, wide(required_divergence@)),
{
    let mut feasibility = FeasibilityExecution::untracked();
    match dijkstra_internal(graph, required_divergence, false, &mut feasibility) {
        Ok(run) => Ok(run.0),
        Err(e) => Err(e),
    }
}

/// Solves potential + Dijkstra SSP while reporting its feasibility precheck to
/// the enclosing execution.
pub fn solve_potential_dijkstra_ssp_with_feasibility(
    graph: &FlowNetwork,
    required_divergence: &[i128],
    feasibility: &mut FeasibilityExecution,
) -> (r: Result<PotentialDijkstraSspResult, PotentialDijkstraSspError>)
    ensures
        r matches Err(e) ==> (e is AdmissionLimit ==> *final(feasibility) == *old(feasibility)),
        r matches Ok(res) ==> certified_min_cost(*graph, required_divergence@, res.flows@, res.certificate),
        r matches Ok(res) ==> res.metrics.augmentations <= POTENTIAL_DIJKSTRA_SSP_MAX_AUGMENTATIONS,
        r matches Ok(res) ==> res.metrics.augmentations <= unmet_at_lower(*graph, required_divergence@),
        unmet_at_lower(*graph, required_divergence@) <= POTENTIAL_DIJKSTRA_SSP_MAX_AUGMENTATIONS
            ==> !(r matches Err(PotentialDijkstraSspError::AugmentationLimit)),
        r == Err::<PotentialDijkstraSspResult, PotentialDijkstraSspError>(PotentialDijkstraSspError::AdmissionLimit) <==> dijkstra_over_admission(*graph),
        !(r matches Err(PotentialDijkstraSspError::PredecessorInvariant)),
        !(r matches Err(PotentialDijkstraSspError::NegativeReducedCost)),
        r == Err::<PotentialDijkstraSspResult, PotentialDijkstraSspError>(PotentialDijkstraSspError::Feasibility(FeasibilityError::LengthMismatch))
            <==> !dijkstra_over_admission(*graph) && required_divergence@.len() != graph.n(),
        r == Err::<PotentialDijkstraSspResult, PotentialDijkstraSspError>(PotentialDijkstraSspError::Feasibility(FeasibilityError::Infeasible))
            ==> forall|f: Seq<int>| !#[trigger] feasible_flow(*graph, f, wide(required_divergence@)),
{
    match dijkstra_internal(graph, required_divergence, false, feasibility) {
        Ok(run) => Ok(run.0),
        Err(e) => Err(e),
    }
}

fn traced(run: (PotentialDijkstraSspResult, Option<TraceParts>)) -> (r: Result<PotentialDijkstraSspTraceResult, PotentialDijkstraSspError>)
    requires
        run.1 matches Some(t) ==> replayable(t),
    ensures
        run.1 is Some ==> r is Ok,
        r matches Ok(t) ==> trace_replays(trace_view(t.base_snapshot), t.events@, trace_view(t.final_snapshot)),
        r matches Ok(t) ==> t.result == run.0,
        r is Err ==> r == Err::<PotentialDijkstraSspTraceResult, PotentialDijkstraSspError>(PotentialDijkstraSspError::PredecessorInvariant),
{
    match run.1 {
        Some((base_snapshot, events, final_snapshot)) => Ok(PotentialDijkstraSspTraceResult { result: run.0, base_snapshot, events, final_snapshot }),
        None => Err(PotentialDijkstraSspError::PredecessorInvariant),
    }
}

/// Solves potential + Dijkstra SSP while recording prices and shortest paths.
pub fn trace_potential_dijkstra_ssp(graph: &FlowNetwork, required_divergence: &[i128]) -> (r: Result<PotentialDijkstraSspTraceResult, PotentialDijkstraSspError>)
    ensures
        r matches Ok(res) ==> certified_min_cost(*graph, required_divergence@, res.result.flows@, res.result.certificate),
        r matches Ok(res) ==> res.result.metrics.augmentations <= POTENTIAL_DIJKSTRA_SSP_MAX_AUGMENTATIONS,
        r matches Ok(res) ==> res.result.metrics.augmentations <= unmet_at_lower(*graph, required_divergence@),
        unmet_at_lower(*graph, required_divergence@) <= POTENTIAL_DIJKSTRA_SSP_MAX_AUGMENTATIONS
            ==> !(r matches Err(PotentialDijkstraSspError::AugmentationLimit)),
        r matches Ok(res) ==> trace_replays(trace_view(res.base_snapshot), res.events@, trace_view(res.final_snapshot)),
        r == Err::<PotentialDijkstraSspTraceResult, PotentialDijkstraSspError>(PotentialDijkstraSspError::AdmissionLimit) <==> dijkstra_over_admission(*graph),
        !(r matches Err(PotentialDijkstraSspError::PredecessorInvariant)),
        !(r matches Err(PotentialDijkstraSspError::NegativeReducedCost)),
{
    let mut feasibility = FeasibilityExecution::untracked();
    traced(dijkstra_internal(graph, required_divergence, true, &mut feasibility)?)
}

/// Traces potential + Dijkstra SSP while publishing its feasibility precheck
/// to the enclosing execution.
pub fn trace_potential_dijkstra_ssp_with_feasibility(
    graph: &FlowNetwork,
    required_divergence: &[i128],
    feasibility: &mut FeasibilityExecution,
) -> (r: Result<PotentialDijkstraSspTraceResult, PotentialDijkstraSspError>)
    ensures
        r matches Err(e) ==> (e is AdmissionLimit ==> *final(feasibility) == *old(feasibility)),
        r matches Ok(res) ==> certified_min_cost(*graph, required_divergence@, res.result.flows@, res.result.certificate),
        r matches Ok(res) ==> res.result.metrics.augmentations <= POTENTIAL_DIJKSTRA_SSP_MAX_AUGMENTATIONS,
        r matches Ok(res) ==> res.result.metrics.augmentations <= unmet_at_lower(*graph, required_divergence@),
        unmet_at_lower(*graph, required_divergence@) <= POTENTIAL_DIJKSTRA_SSP_MAX_AUGMENTATIONS
            ==> !(r matches Err(PotentialDijkstraSspError::AugmentationLimit)),
        r matches Ok(res) ==> trace_replays(trace_view(res.base_snapshot), res.events@, trace_view(res.final_snapshot)),
        r == Err::<PotentialDijkstraSspTraceResult, PotentialDijkstraSspError>(PotentialDijkstraSspError::AdmissionLimit) <==> dijkstra_over_admission(*graph),
        !(r matches Err(PotentialDijkstraSspError::PredecessorInvariant)),
        !(r matches Err(PotentialDijkstraSspError::NegativeReducedCost)),
{
    traced(dijkstra_internal(graph, required_divergence, true, feasibility)?)
}

} // verus!
