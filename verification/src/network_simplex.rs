//! Primal network simplex with artificial-root initialization and block
//! pricing, and a variant that keeps the basis's directional residual
//! capacities as tree-path values.
use vstd::prelude::*;
use vstd::arithmetic::power2::is_pow2;

use crate::certificate::{certified_min_cost, check_min_cost_flow, divergences, wide, CertificateError, MinCostFlowCertificate};
use crate::flows::{divergence, feasible_flow, ints};
use crate::feasibility::{FeasibilityError, FeasibilityExecution, FeasibilityUse};
use crate::max_flow::clone_usizes;
use crate::min_cost::TraceParts;
use crate::model::FlowNetwork;
use crate::ratio_cycle::sort_pairs;
use crate::residual::{count_true, lemma_count_true_bounds, lemma_count_true_set};
use crate::trace::{replayable, trace_replays, trace_view, 
    record_view, residual_arc_refs, FlowTraceError, FlowTraceEvent, FlowTraceEventMetadata,
    FlowTraceMetrics, FlowTraceRecorder, FlowTraceSnapshot, TraceGranularityV1,
};

verus! {

/// Conservative interactive node limit for the natural primal network simplex.
pub const NETWORK_SIMPLEX_MAX_NODES: usize = 256;
/// Conservative interactive edge limit for the natural primal network simplex.
pub const NETWORK_SIMPLEX_MAX_EDGES: usize = 2_048;
/// Deterministic ceiling on simplex pivots, including degenerate pivots.
pub const NETWORK_SIMPLEX_MAX_PIVOTS: u64 = 250_000;
/// Deterministic ceiling on priced original arcs.
pub const NETWORK_SIMPLEX_MAX_PRICING_ARC_SCANS: u128 = 8_000_000;

/// Exact deterministic counters from the natural primal network simplex.
#[derive(Clone, Copy, Debug, Default, Eq, PartialEq)]
pub struct NetworkSimplexMetrics {
    /// Complete block-pricing searches, including the final optimality scan.
    pub pricing_searches: u64,
    /// Original non-tree arcs inspected by block pricing.
    pub pricing_arc_scans: u128,
    /// Basic cycles selected and pivoted.
    pub pivots: u64,
    /// Pivots that changed at least one flow value.
    pub nondegenerate_pivots: u64,
    /// Zero-augmentation pivots that changed only the basis.
    pub degenerate_pivots: u64,
    /// Pivots that exchanged an entering and leaving tree arc.
    pub basis_exchanges: u64,
    /// Pivots whose entering arc crossed directly from one bound to the other.
    pub bound_flips: u64,
    /// Tree arcs inspected while finding a basic-cycle bottleneck.
    pub cycle_arc_scans: u128,
    /// Rooted-tree reconstructions after basis exchanges, including initialization.
    pub tree_rebuilds: u64,
    /// Full tree-potential reconstructions, including initialization.
    pub potential_recomputations: u64,
}

/// Exact counters for the directional-forest network-simplex variant.
#[derive(Clone, Copy, Debug, Default, Eq, PartialEq)]
pub struct DynamicTreeNetworkSimplexMetrics {
    /// Counters shared with the natural primal network-simplex pivot rule.
    pub simplex: NetworkSimplexMetrics,
    /// Path-minimum queries used to obtain cycle bottlenecks.
    pub path_minimum_queries: u64,
    /// Path updates applied to directional residual capacities.
    pub path_updates: u64,
    /// Leaving basis arcs cut from both directional forests.
    pub tree_cuts: u64,
    /// Entering basis arcs linked into both directional forests.
    pub tree_links: u64,
    /// Full directional-forest constructions, including initialization.
    pub directional_forest_rebuilds: u64,
    /// Full comparisons of directional values with explicit flows.
    pub directional_value_validations: u64,
}

/// Certified natural primal-network-simplex result.
#[derive(Clone, Debug, Eq, PartialEq)]
pub struct NetworkSimplexResult {
    /// Original-edge flows in canonical edge-ID order.
    pub flows: Vec<u64>,
    /// Independently reconstructed objective and dual certificate.
    pub certificate: MinCostFlowCertificate,
    /// Deterministic kernel counters.
    pub metrics: NetworkSimplexMetrics,
    /// Strict artificial-arc cost used by the initial star basis.
    pub artificial_cost: i128,
    /// Number of original arcs examined in one pricing block.
    pub pricing_block_size: usize,
}

/// Certified result with reversible pricing, cycle, and basis-exchange events.
#[derive(Clone, Debug, Eq, PartialEq)]
pub struct NetworkSimplexTraceResult {
    /// Same canonical result produced by the fast profile.
    pub result: NetworkSimplexResult,
    /// Replay boundary at the artificial-root star basis.
    pub base_snapshot: FlowTraceSnapshot,
    /// Canonical reversible event sequence.
    pub events: Vec<FlowTraceEvent>,
    /// Replay boundary after exact optimality certification.
    pub final_snapshot: FlowTraceSnapshot,
}

/// Certified minimum-cost flow from the directional-forest pivot kernel.
#[derive(Clone, Debug, Eq, PartialEq)]
pub struct DynamicTreeNetworkSimplexResult {
    /// Original-edge flows in canonical edge-ID order.
    pub flows: Vec<u64>,
    /// Independently reconstructed primal/dual optimum certificate.
    pub certificate: MinCostFlowCertificate,
    /// Exact natural-pivot and directional-forest operation counters.
    pub metrics: DynamicTreeNetworkSimplexMetrics,
    /// Strict artificial-arc cost used by the initial star basis.
    pub artificial_cost: i128,
    /// Number of original arcs examined in one pricing block.
    pub pricing_block_size: usize,
}

/// Certified directional-forest result with a reversible semantic trace.
#[derive(Clone, Debug, Eq, PartialEq)]
pub struct DynamicTreeNetworkSimplexTraceResult {
    /// Same canonical result produced by the fast profile.
    pub result: DynamicTreeNetworkSimplexResult,
    /// Replay boundary at the artificial-root star basis.
    pub base_snapshot: FlowTraceSnapshot,
    /// Canonical reversible pivot sequence.
    pub events: Vec<FlowTraceEvent>,
    /// Replay boundary after exact optimality certification.
    pub final_snapshot: FlowTraceSnapshot,
}

/// Network-simplex construction or verification failure.
#[derive(Clone, Copy, Debug, Eq, PartialEq)]
pub enum NetworkSimplexError {
    /// Input exceeds the practical interactive admission band.
    AdmissionLimit,
    /// A deterministic pivot or pricing-scan ceiling was reached.
    WorkLimit,
    /// No original flow satisfies the requested balances and bounds.
    Feasibility(FeasibilityError),
    /// Final independent primal/dual certification failed.
    Certificate(CertificateError),
    /// Checked exact arithmetic exceeded the declared domain.
    ArithmeticOverflow,
    /// The tree partition, rooted representation, or tree potentials disagreed.
    BasisInvariant,
    /// The leaving-arc tie rule failed to preserve a strongly feasible tree.
    StrongFeasibility,
    /// An artificial arc retained positive flow despite the feasibility precheck.
    ArtificialFlow,
    /// Reversible trace construction contradicted algorithm state.
    Trace(FlowTraceError),
}

type Nse = NetworkSimplexError;

/// Too many nodes or edges for the network simplex.
pub open spec fn simplex_over_admission(g: FlowNetwork) -> bool {
    g.n() > NETWORK_SIMPLEX_MAX_NODES || g.m() > NETWORK_SIMPLEX_MAX_EDGES
}

/// An error that arises only after admission and the feasibility precheck.
pub open spec fn ns_late<T>(r: Result<T, Nse>) -> bool {
    r matches Err(e) ==> !(e is AdmissionLimit) && !(e is Feasibility)
}

fn fail<T>(e: Nse) -> (r: Result<T, Nse>)
    requires
        !(e is AdmissionLimit) && !(e is Feasibility),
    ensures
        r == Err::<T, Nse>(e),
        ns_late(r),
{
    Err(e)
}

/// Where a nonbasic arc rests, or that it is basic.
#[derive(Clone, Copy, Debug, PartialEq, Eq, Structural)]
enum ArcState {
    Lower,
    Tree,
    Upper,
}

/// An original arc shifted to a zero lower bound, or an artificial arc to or
/// from the root.
#[derive(Clone, Copy)]
struct ArcData {
    source: usize,
    target: usize,
    capacity: i128,
    cost: i128,
    flow: i128,
    state: ArcState,
    original: Option<usize>,
}

/// The working basis: arcs, the rooted spanning tree with potentials, the
/// pricing cursor, counters, and (in the directional variant) the residual
/// capacity of every basic arc toward and away from the root.
struct Work {
    n: usize,
    m: usize,
    dynamic: bool,
    transformed: Vec<i128>,
    required: Vec<i128>,
    arcs: Vec<ArcData>,
    parent: Vec<Option<usize>>,
    parent_arc: Vec<Option<usize>>,
    depth: Vec<usize>,
    potentials: Vec<i128>,
    pricing_cursor: usize,
    pricing_block_size: usize,
    artificial_cost: i128,
    metrics: NetworkSimplexMetrics,
    up_val: Vec<i128>,
    down_val: Vec<i128>,
    dyn_metrics: DynamicTreeNetworkSimplexMetrics,
}

impl Work {
    /// Shape of the arcs and node arrays.
    spec fn shape(&self) -> bool {
        &&& self.n <= NETWORK_SIMPLEX_MAX_NODES
        &&& self.m <= NETWORK_SIMPLEX_MAX_EDGES
        &&& self.arcs@.len() == self.m + self.n
        &&& self.transformed@.len() == self.n
        &&& self.required@.len() == self.n
        &&& self.up_val@.len() == self.arcs@.len()
        &&& self.down_val@.len() == self.arcs@.len()
        &&& forall|a: int| 0 <= a < self.arcs@.len() ==> (#[trigger] self.arcs@[a]).source <= self.n && self.arcs@[a].target <= self.n
        &&& (self.m > 0 ==> self.pricing_cursor < self.m && 1 <= self.pricing_block_size <= self.m)
    }

    /// A rooted tree over the `n + 1` nodes: parents have depth one less.
    spec fn rooted(&self) -> bool {
        &&& self.parent@.len() == self.n + 1
        &&& self.parent_arc@.len() == self.n + 1
        &&& self.depth@.len() == self.n + 1
        &&& self.potentials@.len() == self.n + 1
        &&& forall|v: int| 0 <= v <= self.n ==> ((#[trigger] self.parent@[v]) matches Some(p) ==> p <= self.n && self.depth@[v] == self.depth@[p as int] + 1)
        &&& forall|v: int| 0 <= v <= self.n ==> ((#[trigger] self.parent_arc@[v]) matches Some(a) ==> a < self.arcs@.len())
    }

    spec fn wf(&self) -> bool {
        self.shape() && self.rooted()
    }
}

/// Residual capacity of an arc from `from` to `to`.
fn directed_residual(arc: ArcData, from: usize, to: usize) -> (r: Result<i128, Nse>)
    ensures
        ns_late(r),
        arc.source == from && arc.target == to ==> (r matches Ok(x) ==> x == arc.capacity - arc.flow)
            && (r is Err <==> !(i128::MIN <= arc.capacity - arc.flow <= i128::MAX)),
        !(arc.source == from && arc.target == to) && arc.source == to && arc.target == from ==> r == Ok::<i128, Nse>(arc.flow),
        !(arc.source == from && arc.target == to) && !(arc.source == to && arc.target == from) ==> r == Err::<i128, Nse>(Nse::BasisInvariant),
{
    if arc.source == from && arc.target == to {
        match arc.capacity.checked_sub(arc.flow) {
            Some(x) => Ok(x),
            None => fail(Nse::ArithmeticOverflow),
        }
    } else if arc.source == to && arc.target == from {
        Ok(arc.flow)
    } else {
        fail(Nse::BasisInvariant)
    }
}

/// Smallest `r` with `r * r >= value`.
/// `r` is the least nonnegative integer whose square reaches `value`.
pub open spec fn is_ceil_sqrt(value: int, r: int) -> bool {
    &&& r >= 0
    &&& r * r >= value
    &&& (r == 0 || (r - 1) * (r - 1) < value)
}

/// Largest absolute cost among the first `k` edges of `g`, or zero.
pub open spec fn largest_abs_cost(g: FlowNetwork, k: int) -> int
    decreases k,
{
    if k <= 0 {
        0
    } else {
        let c = g.edge_seq()[k - 1].cost as int;
        let a = if c < 0 { -c } else { c };
        let rest = largest_abs_cost(g, k - 1);
        if a > rest { a } else { rest }
    }
}

/// Cost of each artificial arc of the initial star basis: one more than the
/// largest absolute edge cost, times one more than the node count.
pub open spec fn artificial_arc_cost(g: FlowNetwork) -> int {
    (g.n() + 1) * (largest_abs_cost(g, g.m() as int) + 1)
}

fn integer_ceil_sqrt(value: usize) -> (r: usize)
    requires
        value <= NETWORK_SIMPLEX_MAX_EDGES,
    ensures
        value > 0 ==> 1 <= r <= value,
        is_ceil_sqrt(value as int, r as int),
{
    if value == 0 {
        return 0;
    }
    let mut root: usize = 1;
    let mut square: usize = 1;
    while square < value
        invariant
            1 <= root <= value,
            square == root * root,
            value <= NETWORK_SIMPLEX_MAX_EDGES,
            (root - 1) * (root - 1) < value,
        decreases value - root,
    {
        assert(root < value) by (nonlinear_arith)
            requires
                1 <= root,
                square == root * root,
                square < value,
        ;
        assert((root + 1) * (root + 1) == square + 2 * root + 1) by (nonlinear_arith)
            requires
                square == root * root,
        ;
        square = square + 2 * root + 1;
        root = root + 1;
    }
    root
}

/// Rebuilds the rooted basis tree by breadth-first search from the root over
/// basic arcs in (neighbour, arc) order, then the tree potentials.
fn rebuild_tree_and_potentials(work: &mut Work) -> (r: Result<(), Nse>)
    requires
        old(work).shape(),
    ensures
        ns_late(r),
        final(work).shape(),
        r is Ok ==> final(work).rooted(),
        final(work).n == old(work).n,
        final(work).m == old(work).m,
        final(work).dynamic == old(work).dynamic,
        final(work).arcs == old(work).arcs,
        final(work).metrics.pivots == old(work).metrics.pivots,
        final(work).artificial_cost == old(work).artificial_cost,
        final(work).pricing_block_size == old(work).pricing_block_size,
{
    let n = work.n;
    let count = n + 1;
    let root = n;
    let mut tree_arcs: usize = 0;
    let mut a: usize = 0;
    while a < work.arcs.len()
        invariant
            work.shape(),
            a <= work.arcs@.len(),
            tree_arcs <= a,
        decreases work.arcs@.len() - a,
    {
        let arc = work.arcs[a];
        if arc.state == ArcState::Tree {
            if arc.source == arc.target {
                return fail(Nse::BasisInvariant);
            }
            tree_arcs = tree_arcs + 1;
        }
        a = a + 1;
    }
    if tree_arcs + 1 != count {
        return fail(Nse::BasisInvariant);
    }
    let mut adjacency: Vec<Vec<(usize, usize)>> = Vec::new();
    let mut u: usize = 0;
    while u < count
        invariant
            work.shape(),
            count == work.n + 1,
            u <= count,
            adjacency@.len() == u,
            forall|w: int, i: int| 0 <= w < adjacency@.len() && 0 <= i < adjacency@[w]@.len() ==>
                (#[trigger] adjacency@[w]@[i]).0 < count && adjacency@[w]@[i].1 < work.arcs@.len(),
        decreases count - u,
    {
        let mut list: Vec<(usize, usize)> = Vec::new();
        let mut a: usize = 0;
        while a < work.arcs.len()
            invariant
                work.shape(),
                count == work.n + 1,
                a <= work.arcs@.len(),
                forall|i: int| 0 <= i < list@.len() ==> (#[trigger] list@[i]).0 < count && list@[i].1 < work.arcs@.len(),
            decreases work.arcs@.len() - a,
        {
            let arc = work.arcs[a];
            if arc.state == ArcState::Tree {
                if arc.source == u {
                    list.push((arc.target, a));
                }
                if arc.target == u {
                    list.push((arc.source, a));
                }
            }
            a = a + 1;
        }
        let ghost unsorted = list@;
        sort_pairs(&mut list);
        proof {
            assert forall|i: int| 0 <= i < list@.len() implies (#[trigger] list@[i]).0 < count && list@[i].1 < work.arcs@.len() by {
                assert(unsorted.contains(list@[i]));
            }
        }
        let ghost before = adjacency@;
        adjacency.push(list);
        proof {
            assert forall|w: int, i: int| 0 <= w < adjacency@.len() && 0 <= i < adjacency@[w]@.len() implies
                (#[trigger] adjacency@[w]@[i]).0 < count && adjacency@[w]@[i].1 < work.arcs@.len() by {
                if w < before.len() {
                    assert(adjacency@[w] == before[w]);
                }
            }
        }
        u = u + 1;
    }
    let mut parent: Vec<Option<usize>> = Vec::new();
    let mut parent_arc: Vec<Option<usize>> = Vec::new();
    let mut depth: Vec<usize> = Vec::new();
    let mut seen: Vec<bool> = Vec::new();
    let mut v: usize = 0;
    while v < count
        invariant
            v <= count,
            parent@.len() == v,
            parent_arc@.len() == v,
            depth@.len() == v,
            seen@.len() == v,
            forall|x: int| 0 <= x < v ==> (#[trigger] parent@[x]) is None,
            forall|x: int| 0 <= x < v ==> (#[trigger] parent_arc@[x]) is None,
            forall|x: int| 0 <= x < v ==> (#[trigger] depth@[x]) == 0,
            forall|x: int| 0 <= x < v ==> !(#[trigger] seen@[x]),
        decreases count - v,
    {
        parent.push(None);
        parent_arc.push(None);
        depth.push(0);
        seen.push(false);
        v = v + 1;
    }
    proof {
        lemma_count_true_set(seen@, root as int, count as int);
        lemma_count_true_bounds(seen@, count as int);
    }
    seen.set(root, true);
    proof {
        lemma_count_true_bounds(seen@, count as int);
    }
    let mut order: Vec<usize> = Vec::new();
    order.push(root);
    let mut cursor: usize = 0;
    while cursor < order.len()
        invariant
            work.shape(),
            count == work.n + 1,
            root == work.n,
            adjacency@.len() == count,
            forall|w: int, i: int| 0 <= w < adjacency@.len() && 0 <= i < adjacency@[w]@.len() ==>
                (#[trigger] adjacency@[w]@[i]).0 < count && adjacency@[w]@[i].1 < work.arcs@.len(),
            parent@.len() == count,
            parent_arc@.len() == count,
            depth@.len() == count,
            seen@.len() == count,
            seen@[root as int],
            parent@[root as int] is None,
            depth@[root as int] == 0,
            forall|j: int| 0 <= j < order@.len() ==> order@[j] < count && seen@[order@[j] as int],
            cursor <= order@.len(),
            0 <= count_true(seen@, count as int) <= count,
            forall|x: int| 0 <= x < count ==> ((#[trigger] parent@[x]) matches Some(p) ==> p < count && seen@[x] && seen@[p as int] && depth@[x] == depth@[p as int] + 1),
            forall|x: int| 0 <= x < count ==> ((#[trigger] parent_arc@[x]) matches Some(a) ==> a < work.arcs@.len()),
            forall|x: int| 0 <= x < count && !seen@[x] ==> (#[trigger] parent@[x]) is None,
        decreases 2 * (count - count_true(seen@, count as int)) + order@.len() - cursor,
    {
        let ghost measure = 2 * (count - count_true(seen@, count as int)) + order@.len() - cursor;
        let node = order[cursor];
        cursor = cursor + 1;
        let list = &adjacency[node];
        let mut i: usize = 0;
        while i < list.len()
            invariant
                work.shape(),
                count == work.n + 1,
                root == work.n,
                node < count,
                seen@[node as int],
                list == &adjacency@[node as int],
                i <= list@.len(),
                adjacency@.len() == count,
                forall|w: int, j: int| 0 <= w < adjacency@.len() && 0 <= j < adjacency@[w]@.len() ==>
                    (#[trigger] adjacency@[w]@[j]).0 < count && adjacency@[w]@[j].1 < work.arcs@.len(),
                parent@.len() == count,
                parent_arc@.len() == count,
                depth@.len() == count,
                seen@.len() == count,
                seen@[root as int],
                parent@[root as int] is None,
                depth@[root as int] == 0,
                forall|j: int| 0 <= j < order@.len() ==> order@[j] < count && seen@[order@[j] as int],
                cursor <= order@.len(),
                0 <= count_true(seen@, count as int) <= count,
                2 * (count - count_true(seen@, count as int)) + order@.len() - cursor < measure,
                forall|x: int| 0 <= x < count ==> ((#[trigger] parent@[x]) matches Some(p) ==> p < count && seen@[x] && seen@[p as int] && depth@[x] == depth@[p as int] + 1),
                forall|x: int| 0 <= x < count ==> ((#[trigger] parent_arc@[x]) matches Some(a) ==> a < work.arcs@.len()),
                forall|x: int| 0 <= x < count && !seen@[x] ==> (#[trigger] parent@[x]) is None,
            decreases list@.len() - i,
        {
            let (next, arc_index) = list[i];
            assert(next < count && arc_index < work.arcs@.len()) by {
                assert(adjacency@[node as int]@[i as int] == (next, arc_index));
            }
            i = i + 1;
            if seen[next] {
                continue;
            }
            let d = depth[node];
            if d == usize::MAX {
                return fail(Nse::ArithmeticOverflow);
            }
            proof {
                lemma_count_true_set(seen@, next as int, count as int);
            }
            seen.set(next, true);
            parent.set(next, Some(node));
            parent_arc.set(next, Some(arc_index));
            depth.set(next, d + 1);
            order.push(next);
            proof {
                lemma_count_true_bounds(seen@, count as int);
            }
        }
    }
    if order.len() != count {
        return fail(Nse::BasisInvariant);
    }
    let mut potentials: Vec<i128> = Vec::new();
    let mut v: usize = 0;
    while v < count
        invariant
            v <= count,
            potentials@.len() == v,
        decreases count - v,
    {
        potentials.push(0);
        v = v + 1;
    }
    let mut j: usize = 1;
    while j < order.len()
        invariant
            work.shape(),
            count == work.n + 1,
            order@.len() == count,
            forall|k: int| 0 <= k < order@.len() ==> order@[k] < count,
            parent@.len() == count,
            parent_arc@.len() == count,
            potentials@.len() == count,
            forall|x: int| 0 <= x < count ==> ((#[trigger] parent@[x]) matches Some(p) ==> p < count),
            forall|x: int| 0 <= x < count ==> ((#[trigger] parent_arc@[x]) matches Some(a) ==> a < work.arcs@.len()),
        decreases order@.len() - j,
    {
        let node = order[j];
        let p = match parent[node] {
            Some(p) => p,
            None => return fail(Nse::BasisInvariant),
        };
        let a = match parent_arc[node] {
            Some(a) => a,
            None => return fail(Nse::BasisInvariant),
        };
        let arc = work.arcs[a];
        let value = if arc.source == p && arc.target == node {
            potentials[p].checked_add(arc.cost)
        } else if arc.source == node && arc.target == p {
            potentials[p].checked_sub(arc.cost)
        } else {
            return fail(Nse::BasisInvariant);
        };
        match value {
            Some(x) => potentials.set(node, x),
            None => return fail(Nse::ArithmeticOverflow),
        }
        j = j + 1;
    }
    work.parent = parent;
    work.parent_arc = parent_arc;
    work.depth = depth;
    work.potentials = potentials;
    if work.metrics.tree_rebuilds < u64::MAX {
        work.metrics.tree_rebuilds = work.metrics.tree_rebuilds + 1;
    }
    if work.metrics.potential_recomputations < u64::MAX {
        work.metrics.potential_recomputations = work.metrics.potential_recomputations + 1;
    }
    Ok(())
}


fn sat_inc(x: u64) -> (r: u64)
    ensures
        x < u64::MAX ==> r == x + 1,
{
    if x < u64::MAX { x + 1 } else { x }
}

/// Checks bounds, rest states, zero reduced cost on basic arcs, the
/// transformed balances, and strong feasibility of every tree arc.
fn validate_basis(work: &Work) -> (r: Result<(), Nse>)
    requires
        work.wf(),
    ensures
        ns_late(r),
{
    let n = work.n;
    let count = n + 1;
    let mut ext: Vec<i128> = Vec::new();
    let mut v: usize = 0;
    while v < count
        invariant
            v <= count,
            ext@.len() == v,
        decreases count - v,
    {
        ext.push(0);
        v = v + 1;
    }
    let mut a: usize = 0;
    while a < work.arcs.len()
        invariant
            work.wf(),
            count == work.n + 1,
            ext@.len() == count,
            a <= work.arcs@.len(),
        decreases work.arcs@.len() - a,
    {
        let arc = work.arcs[a];
        if arc.flow < 0 || arc.flow > arc.capacity {
            return fail(Nse::BasisInvariant);
        }
        if arc.state == ArcState::Lower && arc.flow != 0 {
            return fail(Nse::BasisInvariant);
        }
        if arc.state == ArcState::Upper && arc.flow != arc.capacity {
            return fail(Nse::BasisInvariant);
        }
        if arc.state == ArcState::Tree {
            let reduced = match arc.cost.checked_add(work.potentials[arc.source]) {
                Some(x) => match x.checked_sub(work.potentials[arc.target]) {
                    Some(y) => y,
                    None => return fail(Nse::ArithmeticOverflow),
                },
                None => return fail(Nse::ArithmeticOverflow),
            };
            if reduced != 0 {
                return fail(Nse::BasisInvariant);
            }
        }
        match ext[arc.source].checked_add(arc.flow) {
            Some(x) => ext.set(arc.source, x),
            None => return fail(Nse::ArithmeticOverflow),
        }
        match ext[arc.target].checked_sub(arc.flow) {
            Some(x) => ext.set(arc.target, x),
            None => return fail(Nse::ArithmeticOverflow),
        }
        a = a + 1;
    }
    let mut node: usize = 0;
    while node < n
        invariant
            work.wf(),
            n == work.n,
            count == n + 1,
            ext@.len() == count,
            node <= n,
        decreases n - node,
    {
        if ext[node] != work.transformed[node] {
            return fail(Nse::BasisInvariant);
        }
        let p = match work.parent[node] {
            Some(p) => p,
            None => return fail(Nse::BasisInvariant),
        };
        let pa = match work.parent_arc[node] {
            Some(x) => x,
            None => return fail(Nse::BasisInvariant),
        };
        if directed_residual(work.arcs[pa], node, p)? <= 0 {
            return fail(Nse::StrongFeasibility);
        }
        node = node + 1;
    }
    if ext[n] != 0 {
        return fail(Nse::BasisInvariant);
    }
    Ok(())
}

/// Original flows: lower bounds plus the shifted arc flows.
fn original_flows(work: &Work, graph: &FlowNetwork) -> (r: Result<Vec<u64>, Nse>)
    requires
        work.shape(),
        graph.m() == work.m,
    ensures
        ns_late(r),
        r matches Ok(f) ==> f@.len() == graph.m()
            && forall|k: int| 0 <= k < graph.m() ==> #[trigger] f@[k] == graph.edge_seq()[k].lower + work.arcs@[k].flow,
        r is Err <==> exists|k: int| 0 <= k < graph.m()
            && !(0 <= graph.edge_seq()[k].lower + (#[trigger] work.arcs@[k]).flow <= u64::MAX),
        r is Err ==> r == Err::<Vec<u64>, Nse>(Nse::ArithmeticOverflow),
{
    proof {
        use_type_invariant(graph);
    }
    let mut out: Vec<u64> = Vec::new();
    let mut k: usize = 0;
    while k < work.m
        invariant
            work.shape(),
            graph.m() == work.m,
            k <= work.m,
            out@.len() == k,
            forall|j: int| 0 <= j < k ==> #[trigger] out@[j] == graph.edge_seq()[j].lower + work.arcs@[j].flow,
        decreases work.m - k,
    {
        let lower = graph.edges()[k].lower() as i128;
        let flow = match lower.checked_add(work.arcs[k].flow) {
            Some(x) => x,
            None => return fail(Nse::ArithmeticOverflow),
        };
        if flow < 0 || flow > u64::MAX as i128 {
            proof {
                assert(!(0 <= graph.edge_seq()[k as int].lower + work.arcs@[k as int].flow <= u64::MAX));
            }
            return fail(Nse::ArithmeticOverflow);
        }
        out.push(flow as u64);
        k = k + 1;
    }
    proof {
        assert forall|j: int| 0 <= j < graph.m() implies 0 <= graph.edge_seq()[j].lower + (#[trigger] work.arcs@[j]).flow <= u64::MAX by {
            assert(out@[j] == graph.edge_seq()[j].lower + work.arcs@[j].flow);
        }
    }
    Ok(out)
}

/// Total flow on the arcs from position `from` up to `to`.
spec fn flow_sum(arcs: Seq<ArcData>, from: int, to: int) -> int
    decreases to - from,
{
    if to <= from { 0 } else { flow_sum(arcs, from, to - 1) + arcs[to - 1].flow }
}

/// Total flow on the artificial arcs.
fn total_artificial_flow(work: &Work) -> (r: Result<i128, Nse>)
    requires
        work.shape(),
    ensures
        ns_late(r),
        r matches Ok(x) ==> x == flow_sum(work.arcs@, work.m as int, work.arcs@.len() as int),
        r is Err ==> r == Err::<i128, Nse>(Nse::ArithmeticOverflow),
{
    let mut sum: i128 = 0;
    let mut a = work.m;
    while a < work.arcs.len()
        invariant
            work.shape(),
            work.m <= a <= work.arcs@.len(),
            sum == flow_sum(work.arcs@, work.m as int, a as int),
        decreases work.arcs@.len() - a,
    {
        sum = match sum.checked_add(work.arcs[a].flow) {
            Some(x) => x,
            None => return fail(Nse::ArithmeticOverflow),
        };
        a = a + 1;
    }
    Ok(sum)
}

/// The flow on the original edges: each arc's flow above its edge's lower
/// bound.
spec fn explicit_flow(work: &Work, g: FlowNetwork) -> Seq<int> {
    Seq::new(g.m(), |k: int| g.edge_seq()[k].lower + work.arcs@[k].flow)
}

/// Required minus current divergence at every original node.
fn remaining_divergence(work: &Work, graph: &FlowNetwork) -> (r: Result<Vec<i128>, Nse>)
    requires
        work.shape(),
        graph.m() == work.m,
        graph.n() == work.n,
    ensures
        ns_late(r),
        r matches Ok(x) ==> x@.len() == graph.n()
            && forall|v: int| 0 <= v < graph.n() ==> #[trigger] x@[v] == work.required@[v] - divergence(*graph, explicit_flow(work, *graph), v),
{
    let flows = original_flows(work, graph)?;
    proof {
        assert(ints(flows@) =~= explicit_flow(work, *graph));
    }
    let actual = match divergences(graph, flows.as_slice()) {
        Ok(d) => d,
        Err(e) => return fail(Nse::Certificate(e)),
    };
    let mut out: Vec<i128> = Vec::new();
    let mut v: usize = 0;
    while v < work.n
        invariant
            work.shape(),
            graph.n() == work.n,
            actual@.len() == work.n,
            v <= work.n,
            out@.len() == v,
            forall|u: int| 0 <= u < graph.n() ==> #[trigger] actual@[u] == divergence(*graph, explicit_flow(work, *graph), u),
            forall|u: int| 0 <= u < v ==> #[trigger] out@[u] == work.required@[u] - divergence(*graph, explicit_flow(work, *graph), u),
        decreases work.n - v,
    {
        match work.required[v].checked_sub(actual[v]) {
            Some(x) => out.push(x),
            None => return fail(Nse::ArithmeticOverflow),
        }
        v = v + 1;
    }
    Ok(out)
}

/// Records the residual capacity of every basic arc toward and away from
/// the root, then checks them against the explicit flows.
fn rebuild_directional_basis(work: &mut Work) -> (r: Result<(), Nse>)
    requires
        old(work).wf(),
    ensures
        ns_late(r),
        final(work).wf(),
        final(work).n == old(work).n,
        final(work).m == old(work).m,
        final(work).dynamic == old(work).dynamic,
        final(work).arcs == old(work).arcs,
        final(work).metrics == old(work).metrics,
        final(work).artificial_cost == old(work).artificial_cost,
        final(work).pricing_block_size == old(work).pricing_block_size,
{
    if !work.dynamic {
        return Ok(());
    }
    let count = work.n + 1;
    let mut child: usize = 0;
    while child < count
        invariant
            work.wf(),
            count == work.n + 1,
            work.artificial_cost == old(work).artificial_cost,
            work.pricing_block_size == old(work).pricing_block_size,
            work.n == old(work).n,
            work.m == old(work).m,
            work.dynamic == old(work).dynamic,
            work.arcs == old(work).arcs,
            work.metrics == old(work).metrics,
            child <= count,
        decreases count - child,
    {
        match (work.parent[child], work.parent_arc[child]) {
            (Some(p), Some(a)) => {
                let up = directed_residual(work.arcs[a], child, p)?;
                let down = directed_residual(work.arcs[a], p, child)?;
                work.up_val.set(a, up);
                work.down_val.set(a, down);
            },
            _ => {},
        }
        child = child + 1;
    }
    if work.dyn_metrics.directional_forest_rebuilds == u64::MAX {
        return fail(Nse::ArithmeticOverflow);
    }
    work.dyn_metrics.directional_forest_rebuilds = work.dyn_metrics.directional_forest_rebuilds + 1;
    validate_directional_basis(work)
}

/// Compares the stored directional values of every basic arc with the
/// explicit flows.
fn validate_directional_basis(work: &mut Work) -> (r: Result<(), Nse>)
    requires
        old(work).wf(),
    ensures
        ns_late(r),
        final(work).wf(),
        final(work).n == old(work).n,
        final(work).m == old(work).m,
        final(work).dynamic == old(work).dynamic,
        final(work).arcs == old(work).arcs,
        final(work).metrics == old(work).metrics,
        final(work).artificial_cost == old(work).artificial_cost,
        final(work).pricing_block_size == old(work).pricing_block_size,
{
    if !work.dynamic {
        return Ok(());
    }
    let count = work.n + 1;
    let mut child: usize = 0;
    while child < count
        invariant
            work.wf(),
            count == work.n + 1,
            child <= count,
        decreases count - child,
    {
        match (work.parent[child], work.parent_arc[child]) {
            (Some(p), Some(a)) => {
                if work.up_val[a] != directed_residual(work.arcs[a], child, p)?
                    || work.down_val[a] != directed_residual(work.arcs[a], p, child)? {
                    return fail(Nse::BasisInvariant);
                }
            },
            _ => {},
        }
        child = child + 1;
    }
    if work.dyn_metrics.directional_value_validations == u64::MAX {
        return fail(Nse::ArithmeticOverflow);
    }
    work.dyn_metrics.directional_value_validations = work.dyn_metrics.directional_value_validations + 1;
    Ok(())
}

/// The strongly feasible artificial-root star basis over the lower-bound
/// shifted instance.
fn initialize(graph: &FlowNetwork, required: &[i128], dynamic: bool) -> (r: Result<Work, Nse>)
    requires
        !simplex_over_admission(*graph),
        required@.len() == graph.n(),
    ensures
        ns_late(r),
        r matches Ok(w) ==> w.wf() && w.n == graph.n() && w.m == graph.m() && w.dynamic == dynamic && w.metrics.pivots == 0,
        r matches Ok(w) ==> w.artificial_cost == artificial_arc_cost(*graph) && is_ceil_sqrt(graph.m() as int, w.pricing_block_size as int),
{
    proof {
        use_type_invariant(graph);
    }
    let n = graph.nodes().len();
    let m = graph.edges().len();
    let root = n;
    let mut lower: Vec<u64> = Vec::new();
    let mut k: usize = 0;
    while k < m
        invariant
            graph.wf(),
            m == graph.m(),
            k <= m,
            lower@.len() == k,
        decreases m - k,
    {
        lower.push(graph.edges()[k].lower());
        k = k + 1;
    }
    let lower_divergence = match divergences(graph, lower.as_slice()) {
        Ok(d) => d,
        Err(e) => return fail(Nse::Certificate(e)),
    };
    let mut transformed: Vec<i128> = Vec::new();
    let mut v: usize = 0;
    while v < n
        invariant
            n == graph.n(),
            required@.len() == n,
            lower_divergence@.len() == n,
            v <= n,
            transformed@.len() == v,
        decreases n - v,
    {
        match required[v].checked_sub(lower_divergence[v]) {
            Some(x) => transformed.push(x),
            None => return fail(Nse::ArithmeticOverflow),
        }
        v = v + 1;
    }
    let mut max_abs_cost: i128 = 0;
    let mut total_capacity: i128 = 0;
    let mut k: usize = 0;
    while k < m
        invariant
            graph.wf(),
            m == graph.m(),
            k <= m,
            0 <= max_abs_cost <= i64::MAX as i128 + 1,
            max_abs_cost == largest_abs_cost(*graph, k as int),
        decreases m - k,
    {
        let e = &graph.edges()[k];
        assert(graph.edge_seq()[k as int] == *e);
        let c = e.cost() as i128;
        let magnitude = if c < 0 { -c } else { c };
        if magnitude > max_abs_cost {
            max_abs_cost = magnitude;
        }
        total_capacity = match total_capacity.checked_add((e.capacity() - e.lower()) as i128) {
            Some(x) => x,
            None => return fail(Nse::ArithmeticOverflow),
        };
        k = k + 1;
    }
    let artificial_cost = match ((n as i128) + 1).checked_mul(max_abs_cost + 1) {
        Some(x) => x,
        None => return fail(Nse::ArithmeticOverflow),
    };
    let mut total_balance: i128 = 0;
    let mut v: usize = 0;
    while v < n
        invariant
            n == graph.n(),
            transformed@.len() == n,
            v <= n,
        decreases n - v,
    {
        let b = transformed[v];
        if b == i128::MIN {
            return fail(Nse::ArithmeticOverflow);
        }
        let magnitude = if b < 0 { -b } else { b };
        total_balance = match total_balance.checked_add(magnitude) {
            Some(x) => x,
            None => return fail(Nse::ArithmeticOverflow),
        };
        v = v + 1;
    }
    let artificial_capacity = match total_balance.checked_add(total_capacity) {
        Some(x) => match x.checked_add(1) {
            Some(y) => y,
            None => return fail(Nse::ArithmeticOverflow),
        },
        None => return fail(Nse::ArithmeticOverflow),
    };
    let mut arcs: Vec<ArcData> = Vec::new();
    let mut k: usize = 0;
    while k < m
        invariant
            graph.wf(),
            n == graph.n(),
            m == graph.m(),
            k <= m,
            arcs@.len() == k,
            forall|a: int| 0 <= a < arcs@.len() ==> (#[trigger] arcs@[a]).source <= n && arcs@[a].target <= n,
        decreases m - k,
    {
        let e = &graph.edges()[k];
        arcs.push(ArcData {
            source: e.from().as_usize(),
            target: e.to().as_usize(),
            capacity: (e.capacity() - e.lower()) as i128,
            cost: e.cost() as i128,
            flow: 0,
            state: ArcState::Lower,
            original: Some(k),
        });
        k = k + 1;
    }
    let mut v: usize = 0;
    while v < n
        invariant
            n == graph.n(),
            m == graph.m(),
            root == n,
            transformed@.len() == n,
            v <= n,
            arcs@.len() == m + v,
            forall|a: int| 0 <= a < arcs@.len() ==> (#[trigger] arcs@[a]).source <= n && arcs@[a].target <= n,
        decreases n - v,
    {
        let b = transformed[v];
        if b == i128::MIN {
            return fail(Nse::ArithmeticOverflow);
        }
        let (source, target, flow) = if b >= 0 { (v, root, b) } else { (root, v, -b) };
        arcs.push(ArcData { source, target, capacity: artificial_capacity, cost: artificial_cost, flow, state: ArcState::Tree, original: None });
        v = v + 1;
    }
    let mut up_val: Vec<i128> = Vec::new();
    let mut down_val: Vec<i128> = Vec::new();
    let mut a: usize = 0;
    while a < arcs.len()
        invariant
            a <= arcs@.len(),
            up_val@.len() == a,
            down_val@.len() == a,
        decreases arcs@.len() - a,
    {
        up_val.push(0);
        down_val.push(0);
        a = a + 1;
    }
    let zero = NetworkSimplexMetrics {
        pricing_searches: 0,
        pricing_arc_scans: 0,
        pivots: 0,
        nondegenerate_pivots: 0,
        degenerate_pivots: 0,
        basis_exchanges: 0,
        bound_flips: 0,
        cycle_arc_scans: 0,
        tree_rebuilds: 0,
        potential_recomputations: 0,
    };
    let block = integer_ceil_sqrt(m);
    let mut work = Work {
        n,
        m,
        dynamic,
        transformed,
        required: copy_i128s(required),
        arcs,
        parent: Vec::new(),
        parent_arc: Vec::new(),
        depth: Vec::new(),
        potentials: Vec::new(),
        pricing_cursor: 0,
        pricing_block_size: block,
        artificial_cost,
        metrics: zero,
        up_val,
        down_val,
        dyn_metrics: DynamicTreeNetworkSimplexMetrics {
            simplex: zero,
            path_minimum_queries: 0,
            path_updates: 0,
            tree_cuts: 0,
            tree_links: 0,
            directional_forest_rebuilds: 0,
            directional_value_validations: 0,
        },
    };
    rebuild_tree_and_potentials(&mut work)?;
    rebuild_directional_basis(&mut work)?;
    validate_basis(&work)?;
    Ok(work)
}

fn copy_i128s(v: &[i128]) -> (r: Vec<i128>)
    ensures
        r@ == v@,
{
    let mut out: Vec<i128> = Vec::new();
    let mut i: usize = 0;
    while i < v.len()
        invariant
            i <= v@.len(),
            out@ == v@.take(i as int),
        decreases v@.len() - i,
    {
        out.push(v[i]);
        proof {
            assert(v@.take(i + 1) =~= v@.take(i as int).push(v@[i as int]));
        }
        i = i + 1;
    }
    proof {
        assert(v@.take(i as int) =~= v@);
    }
    out
}


/// Same arc with a new flow and state.
fn set_arc(work: &mut Work, a: usize, flow: i128, state: ArcState)
    requires
        old(work).wf(),
        a < old(work).arcs@.len(),
    ensures
        final(work).wf(),
        final(work).n == old(work).n,
        final(work).m == old(work).m,
        final(work).dynamic == old(work).dynamic,
        final(work).metrics == old(work).metrics,
        final(work).arcs@.len() == old(work).arcs@.len(),
        final(work).arcs@ == old(work).arcs@.update(a as int, (ArcData { flow, state, ..old(work).arcs@[a as int] })),
        final(work).transformed@ == old(work).transformed@,
        final(work).required@ == old(work).required@,
        final(work).parent@ == old(work).parent@,
        final(work).parent_arc@ == old(work).parent_arc@,
        final(work).depth@ == old(work).depth@,
        final(work).potentials@ == old(work).potentials@,
        final(work).up_val@ == old(work).up_val@,
        final(work).down_val@ == old(work).down_val@,
        final(work).pricing_cursor == old(work).pricing_cursor,
        final(work).pricing_block_size == old(work).pricing_block_size,
        final(work).artificial_cost == old(work).artificial_cost,
        final(work).dyn_metrics == old(work).dyn_metrics,
{
    let old_arc = work.arcs[a];
    work.arcs.set(a, ArcData { flow, state, ..old_arc });
}

/// An arc's reduced cost under `potentials`, as seen from its bound: itself
/// at the lower bound, zero in the tree, negated at the upper bound.
spec fn entering_value(arc: ArcData, potentials: Seq<i128>) -> int {
    let reduced = arc.cost + potentials[arc.source as int] - potentials[arc.target as int];
    match arc.state {
        ArcState::Lower => reduced,
        ArcState::Tree => 0,
        ArcState::Upper => -reduced,
    }
}

/// Reduced cost of an arc as seen by its residual direction: positive
/// reduced cost entices a saturated arc, negative an empty one.
fn entering_residual_reduced_cost(work: &Work, a: usize) -> (r: Result<i128, Nse>)
    requires
        work.wf(),
    ensures
        ns_late(r),
        a >= work.arcs@.len() ==> r == Err::<i128, Nse>(Nse::BasisInvariant),
        r matches Ok(x) ==> a < work.arcs@.len() && x == entering_value(work.arcs@[a as int], work.potentials@),
        a < work.arcs@.len() && r is Err ==> r == Err::<i128, Nse>(Nse::ArithmeticOverflow),
{
    if a >= work.arcs.len() {
        return fail(Nse::BasisInvariant);
    }
    let arc = work.arcs[a];
    let reduced = match arc.cost.checked_add(work.potentials[arc.source]) {
        Some(x) => match x.checked_sub(work.potentials[arc.target]) {
            Some(y) => y,
            None => return fail(Nse::ArithmeticOverflow),
        },
        None => return fail(Nse::ArithmeticOverflow),
    };
    match arc.state {
        ArcState::Lower => Ok(reduced),
        ArcState::Tree => Ok(0),
        ArcState::Upper => if reduced == i128::MIN { fail(Nse::ArithmeticOverflow) } else { Ok(-reduced) },
    }
}

/// The original residual arc that `arc` gives from `from` to `to`.
spec fn directed_original(arc: ArcData, from: usize, to: usize) -> Result<Option<(usize, bool)>, Nse> {
    if arc.source == from && arc.target == to {
        Ok(match arc.original { Some(k) => Some((k, true)), None => None })
    } else if arc.source == to && arc.target == from {
        Ok(match arc.original { Some(k) => Some((k, false)), None => None })
    } else {
        Err(Nse::BasisInvariant)
    }
}

/// The original residual arc of arc `a` from `from` to `to`; `None` for an
/// artificial arc.
fn original_residual(work: &Work, a: usize, from: usize, to: usize) -> (r: Result<Option<(usize, bool)>, Nse>)
    requires
        work.wf(),
    ensures
        ns_late(r),
        a >= work.arcs@.len() ==> r == Err::<Option<(usize, bool)>, Nse>(Nse::BasisInvariant),
        a < work.arcs@.len() ==> r == directed_original(work.arcs@[a as int], from, to),
{
    if a >= work.arcs.len() {
        return fail(Nse::BasisInvariant);
    }
    let arc = work.arcs[a];
    let forward = if arc.source == from && arc.target == to {
        true
    } else if arc.source == to && arc.target == from {
        false
    } else {
        return fail(Nse::BasisInvariant);
    };
    match arc.original {
        Some(k) => Ok(Some((k, forward))),
        None => Ok(None),
    }
}

/// Halving step: an even `x` of at least two shares no bit with `x - 1`
/// exactly when its half shares none with the half less one, and an odd
/// one of at least three always shares one.
proof fn lemma_power_of_two_step(x: u128)
    requires
        x >= 2,
    ensures
        (x & ((x - 1) as u128) == 0) == (x % 2 == 0 && (x / 2) & ((x / 2 - 1) as u128) == 0),
{
    assert((x & ((x - 1) as u128) == 0) == (x % 2 == 0 && (x / 2) & ((x / 2 - 1) as u128) == 0)) by (bit_vector)
        requires
            x >= 2,
    ;
}

/// Whether `x` shares no bit with `x - 1` is whether it is a power of two.
proof fn lemma_power_of_two(x: u128)
    requires
        x >= 1,
    ensures
        (x & ((x - 1) as u128) == 0) == is_pow2(x as int),
    decreases x,
{
    reveal(is_pow2);
    if x == 1 {
        assert(1u128 & 0u128 == 0) by (bit_vector);
    } else {
        lemma_power_of_two_step(x);
        lemma_power_of_two(x / 2);
        assert((x / 2) as int == (x as int) / 2);
    }
}

fn is_power_of_two(x: u128) -> (r: bool)
    ensures
        r == is_pow2(x as int),
{
    proof {
        reveal(is_pow2);
        if x >= 1 {
            lemma_power_of_two(x);
        }
    }
    x != 0 && (x & (x - 1)) == 0
}

/// Which view an event shows.
#[derive(Clone, Copy, PartialEq, Eq, Structural)]
enum EventKind {
    Initialize,
    InspectPrice,
    Price,
    FormCycle,
    ExchangeBasis,
    FlipBound,
    Optimal,
}

/// Catalog identity, granularity and pseudocode line of an event of `kind`
/// in the primal or the directional-forest variant.
spec fn event_meta_spec(kind: EventKind, dynamic: bool) -> (Seq<char>, TraceGranularityV1, Seq<char>) {
    if !dynamic {
        match kind {
            EventKind::Initialize => ("primal-network-simplex.initialize-artificial-basis"@, TraceGranularityV1::Phase, "primal-network-simplex:build-strongly-feasible-artificial-star"@),
            EventKind::InspectPrice => ("primal-network-simplex.inspect-pricing-arc"@, TraceGranularityV1::Micro, "primal-network-simplex:inspect-one-nontree-arc"@),
            EventKind::Price => ("primal-network-simplex.price-block"@, TraceGranularityV1::Phase, "primal-network-simplex:price-cyclic-sqrt-blocks"@),
            EventKind::FormCycle => ("primal-network-simplex.form-basic-cycle"@, TraceGranularityV1::Operation, "primal-network-simplex:add-entering-arc-and-form-cycle"@),
            EventKind::ExchangeBasis => ("primal-network-simplex.exchange-basis"@, TraceGranularityV1::Operation, "primal-network-simplex:replace-leaving-tree-arc-and-reprice"@),
            EventKind::FlipBound => ("primal-network-simplex.flip-entering-bound"@, TraceGranularityV1::Operation, "primal-network-simplex:entering-arc-hits-opposite-bound"@),
            EventKind::Optimal => ("primal-network-simplex.optimal"@, TraceGranularityV1::Phase, "primal-network-simplex:return-complementary-slack-flow"@),
        }
    } else {
        match kind {
            EventKind::Initialize => ("dynamic-tree-network-simplex.initialize-directional-forests"@, TraceGranularityV1::Phase, "dynamic-tree-network-simplex:build-artificial-basis-and-two-residual-forests"@),
            EventKind::InspectPrice => ("dynamic-tree-network-simplex.inspect-pricing-arc"@, TraceGranularityV1::Micro, "dynamic-tree-network-simplex:inspect-one-nontree-arc"@),
            EventKind::Price => ("dynamic-tree-network-simplex.price-block"@, TraceGranularityV1::Phase, "dynamic-tree-network-simplex:price-cyclic-sqrt-blocks"@),
            EventKind::FormCycle => ("dynamic-tree-network-simplex.query-cycle-minimum"@, TraceGranularityV1::Operation, "dynamic-tree-network-simplex:query-upward-and-downward-path-minima"@),
            EventKind::ExchangeBasis => ("dynamic-tree-network-simplex.cut-link-basis"@, TraceGranularityV1::Operation, "dynamic-tree-network-simplex:cut-leaving-link-entering-and-reprice"@),
            EventKind::FlipBound => ("dynamic-tree-network-simplex.flip-entering-bound"@, TraceGranularityV1::Operation, "dynamic-tree-network-simplex:entering-arc-hits-opposite-bound"@),
            EventKind::Optimal => ("dynamic-tree-network-simplex.optimal"@, TraceGranularityV1::Phase, "dynamic-tree-network-simplex:return-certified-complementary-slack-flow"@),
        }
    }
}

fn event_meta(kind: EventKind, dynamic: bool) -> (r: FlowTraceEventMetadata)
    ensures
        r.catalog_id@ == event_meta_spec(kind, dynamic).0,
        r.minimum_granularity == event_meta_spec(kind, dynamic).1,
        r.pseudocode_line@ == event_meta_spec(kind, dynamic).2,
{
    if !dynamic {
        match kind {
            EventKind::Initialize => FlowTraceEventMetadata { catalog_id: "primal-network-simplex.initialize-artificial-basis", minimum_granularity: TraceGranularityV1::Phase, pseudocode_line: "primal-network-simplex:build-strongly-feasible-artificial-star" },
            EventKind::InspectPrice => FlowTraceEventMetadata { catalog_id: "primal-network-simplex.inspect-pricing-arc", minimum_granularity: TraceGranularityV1::Micro, pseudocode_line: "primal-network-simplex:inspect-one-nontree-arc" },
            EventKind::Price => FlowTraceEventMetadata { catalog_id: "primal-network-simplex.price-block", minimum_granularity: TraceGranularityV1::Phase, pseudocode_line: "primal-network-simplex:price-cyclic-sqrt-blocks" },
            EventKind::FormCycle => FlowTraceEventMetadata { catalog_id: "primal-network-simplex.form-basic-cycle", minimum_granularity: TraceGranularityV1::Operation, pseudocode_line: "primal-network-simplex:add-entering-arc-and-form-cycle" },
            EventKind::ExchangeBasis => FlowTraceEventMetadata { catalog_id: "primal-network-simplex.exchange-basis", minimum_granularity: TraceGranularityV1::Operation, pseudocode_line: "primal-network-simplex:replace-leaving-tree-arc-and-reprice" },
            EventKind::FlipBound => FlowTraceEventMetadata { catalog_id: "primal-network-simplex.flip-entering-bound", minimum_granularity: TraceGranularityV1::Operation, pseudocode_line: "primal-network-simplex:entering-arc-hits-opposite-bound" },
            EventKind::Optimal => FlowTraceEventMetadata { catalog_id: "primal-network-simplex.optimal", minimum_granularity: TraceGranularityV1::Phase, pseudocode_line: "primal-network-simplex:return-complementary-slack-flow" },
        }
    } else {
        match kind {
            EventKind::Initialize => FlowTraceEventMetadata { catalog_id: "dynamic-tree-network-simplex.initialize-directional-forests", minimum_granularity: TraceGranularityV1::Phase, pseudocode_line: "dynamic-tree-network-simplex:build-artificial-basis-and-two-residual-forests" },
            EventKind::InspectPrice => FlowTraceEventMetadata { catalog_id: "dynamic-tree-network-simplex.inspect-pricing-arc", minimum_granularity: TraceGranularityV1::Micro, pseudocode_line: "dynamic-tree-network-simplex:inspect-one-nontree-arc" },
            EventKind::Price => FlowTraceEventMetadata { catalog_id: "dynamic-tree-network-simplex.price-block", minimum_granularity: TraceGranularityV1::Phase, pseudocode_line: "dynamic-tree-network-simplex:price-cyclic-sqrt-blocks" },
            EventKind::FormCycle => FlowTraceEventMetadata { catalog_id: "dynamic-tree-network-simplex.query-cycle-minimum", minimum_granularity: TraceGranularityV1::Operation, pseudocode_line: "dynamic-tree-network-simplex:query-upward-and-downward-path-minima" },
            EventKind::ExchangeBasis => FlowTraceEventMetadata { catalog_id: "dynamic-tree-network-simplex.cut-link-basis", minimum_granularity: TraceGranularityV1::Operation, pseudocode_line: "dynamic-tree-network-simplex:cut-leaving-link-entering-and-reprice" },
            EventKind::FlipBound => FlowTraceEventMetadata { catalog_id: "dynamic-tree-network-simplex.flip-entering-bound", minimum_granularity: TraceGranularityV1::Operation, pseudocode_line: "dynamic-tree-network-simplex:entering-arc-hits-opposite-bound" },
            EventKind::Optimal => FlowTraceEventMetadata { catalog_id: "dynamic-tree-network-simplex.optimal", minimum_granularity: TraceGranularityV1::Phase, pseudocode_line: "dynamic-tree-network-simplex:return-certified-complementary-slack-flow" },
        }
    }
}

/// Shared trace counters of either variant.
pub fn simplex_trace_metrics(dynamic: bool, metrics: NetworkSimplexMetrics, extra: DynamicTreeNetworkSimplexMetrics) -> (r: FlowTraceMetrics)
    ensures
        r.residual_arc_scans == metrics.pricing_arc_scans,
        r.augmentations == metrics.pivots,
        r.path_searches == metrics.pricing_searches,
{
    if !dynamic {
        FlowTraceMetrics {
            bfs_runs: 0,
            relaxation_passes: 0,
            residual_arc_scans: metrics.pricing_arc_scans,
            augmentations: metrics.pivots as u128,
            path_searches: metrics.pricing_searches as u128,
            scaling_phases: 0,
            blocking_flow_phases: 0,
            relabels: metrics.potential_recomputations as u128,
            retreats: metrics.cycle_arc_scans,
            reverse_bfs_runs: 0,
            gap_terminations: metrics.bound_flips as u128,
            pushes: metrics.basis_exchanges as u128,
            saturating_pushes: metrics.nondegenerate_pivots as u128,
            nonsaturating_pushes: metrics.degenerate_pivots as u128,
            discharges: 0,
            active_vertex_selections: 0,
        }
    } else {
        FlowTraceMetrics {
            bfs_runs: extra.directional_forest_rebuilds as u128,
            relaxation_passes: extra.path_minimum_queries as u128,
            residual_arc_scans: metrics.pricing_arc_scans,
            augmentations: metrics.pivots as u128,
            path_searches: metrics.pricing_searches as u128,
            scaling_phases: extra.path_updates as u128,
            blocking_flow_phases: extra.directional_value_validations as u128,
            relabels: metrics.potential_recomputations as u128,
            retreats: metrics.cycle_arc_scans,
            reverse_bfs_runs: extra.tree_links as u128,
            gap_terminations: metrics.bound_flips as u128,
            pushes: metrics.basis_exchanges as u128,
            saturating_pushes: metrics.nondegenerate_pivots as u128,
            nonsaturating_pushes: metrics.degenerate_pivots as u128,
            discharges: extra.tree_cuts as u128,
            active_vertex_selections: metrics.tree_rebuilds as u128,
        }
    }
}

/// The snapshot of the current basis: original flows, tree potentials as
/// labels, the shown nodes and residual path, and the remaining divergence.
fn snapshot_of(work: &Work, graph: &FlowNetwork, order: &Vec<usize>, path: &Vec<(usize, bool)>) -> (r: Result<FlowTraceSnapshot, Nse>)
    requires
        work.wf(),
        graph.m() == work.m,
        graph.n() == work.n,
    ensures
        ns_late(r),
{
    let flows = original_flows(work, graph)?;
    let mut labels: Vec<Option<i128>> = Vec::new();
    let mut v: usize = 0;
    while v < work.n
        invariant
            work.wf(),
            v <= work.n,
        decreases work.n - v,
    {
        labels.push(Some(work.potentials[v]));
        v = v + 1;
    }
    let mut shown: Vec<usize> = Vec::new();
    let mut i: usize = 0;
    while i < order.len()
        invariant
            i <= order@.len(),
        decreases order@.len() - i,
    {
        if order[i] < work.n {
            shown.push(order[i]);
        }
        i = i + 1;
    }
    let remaining = remaining_divergence(work, graph)?;
    match FlowTraceSnapshot::capture(graph, &flows, labels, &shown, path, remaining, simplex_trace_metrics(work.dynamic, work.metrics, work.dyn_metrics)) {
        Ok(snapshot) => Ok(snapshot),
        Err(e) => fail(Nse::Trace(e)),
    }
}

fn record(
    recorder: &mut Option<FlowTraceRecorder>,
    work: &Work,
    graph: &FlowNetwork,
    kind: EventKind,
    order: &Vec<usize>,
    path: &Vec<(usize, bool)>,
    detail: Option<(&'static str, i128)>,
) -> (r: Result<(), Nse>)
    requires
        work.wf(),
        graph.m() == work.m,
        graph.n() == work.n,
    ensures
        ns_late(r),
        (*old(recorder)) is None ==> r is Ok && (*final(recorder)) is None,
        (*old(recorder)) matches Some(before) ==> (*final(recorder)) matches Some(after) && {
            &&& r is Ok ==> after.event_count() == before.event_count() + 1
            &&& r is Err ==> after == before
        },
{
    match recorder {
        Some(rec) => {
            let snapshot = snapshot_of(work, graph, order, path)?;
            let focus = match residual_arc_refs(graph, path) {
                Ok(f) => f,
                Err(e) => return fail(Nse::Trace(e)),
            };
            match rec.record_transition_with_detail_and_focus(event_meta(kind, work.dynamic), &snapshot, detail, focus) {
                Ok(()) => Ok(()),
                Err(e) => fail(Nse::Trace(e)),
            }
        },
        None => Ok(()),
    }
}

spec fn same_frame(a: &Work, b: &Work) -> bool {
    &&& a.n == b.n
    &&& a.m == b.m
    &&& a.dynamic == b.dynamic
}

/// Cyclic square-root block pricing: within the first block that holds an
/// improving arc, the arc of most negative residual reduced cost (ties by
/// position) enters.
fn find_entering_arc(work: &mut Work, recorder: &mut Option<FlowTraceRecorder>, graph: &FlowNetwork) -> (r: Result<(Option<usize>, Vec<usize>), Nse>)
    requires
        old(work).wf(),
        graph.m() == old(work).m,
        graph.n() == old(work).n,
    ensures
        ns_late(r),
        final(work).wf(),
        same_frame(&*final(work), &*old(work)),
        final(work).metrics.pivots == old(work).metrics.pivots,
        r matches Ok((Some(a), _)) ==> a < final(work).m,
{
    work.metrics.pricing_searches = sat_inc(work.metrics.pricing_searches);
    let m = work.m;
    let mut scanned: Vec<usize> = Vec::new();
    if m == 0 {
        return Ok((None, scanned));
    }
    let mut inspected: usize = 0;
    while inspected < m
        invariant
            work.wf(),
            graph.m() == work.m,
            graph.n() == work.n,
            same_frame(&*work, &*old(work)),
            work.metrics.pivots == old(work).metrics.pivots,
            m == work.m,
            m > 0,
            inspected <= m,
        decreases m - inspected,
    {
        let block_len = if work.pricing_block_size < m - inspected { work.pricing_block_size } else { m - inspected };
        let mut best: Option<(usize, i128)> = None;
        let mut offset: usize = 0;
        while offset < block_len
            invariant
                work.wf(),
                graph.m() == work.m,
                graph.n() == work.n,
                same_frame(&*work, &*old(work)),
                work.metrics.pivots == old(work).metrics.pivots,
                m == work.m,
                m > 0,
                block_len <= m,
                offset <= block_len,
                best matches Some(b) ==> b.0 < m,
            decreases block_len - offset,
        {
            let a = (work.pricing_cursor + offset) % m;
            if work.metrics.pricing_arc_scans >= NETWORK_SIMPLEX_MAX_PRICING_ARC_SCANS {
                return fail(Nse::WorkLimit);
            }
            work.metrics.pricing_arc_scans = work.metrics.pricing_arc_scans + 1;
            let arc = work.arcs[a];
            scanned.push(arc.source);
            scanned.push(arc.target);
            let rr = entering_residual_reduced_cost(work, a)?;
            if is_power_of_two(work.metrics.pricing_arc_scans) {
                let endpoints: Option<(usize, usize)> = match arc.state {
                    ArcState::Lower => Some((arc.source, arc.target)),
                    ArcState::Upper => Some((arc.target, arc.source)),
                    ArcState::Tree => {
                        if arc.flow < arc.capacity {
                            Some((arc.source, arc.target))
                        } else if arc.flow > 0 {
                            Some((arc.target, arc.source))
                        } else {
                            None
                        }
                    },
                };
                let mut path: Vec<(usize, bool)> = Vec::new();
                match endpoints {
                    Some((from, to)) => match original_residual(work, a, from, to)? {
                        Some(id) => path.push(id),
                        None => return fail(Nse::BasisInvariant),
                    },
                    None => {},
                }
                let mut order: Vec<usize> = Vec::new();
                order.push(arc.source);
                order.push(arc.target);
                record(recorder, work, graph, EventKind::InspectPrice, &order, &path, Some(("reduced-cost", rr)))?;
            }
            let better = match best {
                None => true,
                Some((bi, bc)) => rr < bc || (rr == bc && a < bi),
            };
            if rr < 0 && better {
                best = Some((a, rr));
            }
            offset = offset + 1;
        }
        inspected = inspected + block_len;
        work.pricing_cursor = (work.pricing_cursor + block_len) % m;
        match best {
            Some((a, _)) => return Ok((Some(a), scanned)),
            None => {},
        }
    }
    Ok((None, scanned))
}

/// The basic cycle of an entering arc: the tree paths from both of its ends
/// up to their lowest common ancestor.
struct BasicCycle {
    entering: usize,
    entering_forward: bool,
    first: usize,
    second: usize,
    join: usize,
    first_branch: Vec<(usize, usize)>,
    second_branch: Vec<(usize, usize)>,
    residual_reduced_cost: i128,
    original_path: Vec<(usize, bool)>,
}

spec fn branch_ok(work: &Work, b: Seq<(usize, usize)>) -> bool {
    forall|i: int| 0 <= i < b.len() ==> (#[trigger] b[i]).0 <= work.n && b[i].1 < work.arcs@.len()
}

/// Parent of a node in the rooted tree.
fn parent_of(work: &Work, v: usize) -> (r: Result<usize, Nse>)
    requires
        work.wf(),
        v <= work.n,
    ensures
        ns_late(r),
        r matches Ok(p) ==> p <= work.n && work.depth@[v as int] == work.depth@[p as int] + 1,
{
    match work.parent[v] {
        Some(p) => Ok(p),
        None => fail(Nse::BasisInvariant),
    }
}

fn lowest_common_ancestor(work: &Work, left: usize, right: usize) -> (r: Result<usize, Nse>)
    requires
        work.wf(),
        left <= work.n,
        right <= work.n,
    ensures
        ns_late(r),
        r matches Ok(j) ==> j <= work.n,
{
    let mut l = left;
    let mut r = right;
    while work.depth[l] > work.depth[r]
        invariant
            work.wf(),
            l <= work.n,
            r <= work.n,
        decreases work.depth@[l as int],
    {
        l = parent_of(work, l)?;
    }
    while work.depth[r] > work.depth[l]
        invariant
            work.wf(),
            l <= work.n,
            r <= work.n,
        decreases work.depth@[r as int],
    {
        r = parent_of(work, r)?;
    }
    while l != r
        invariant
            work.wf(),
            l <= work.n,
            r <= work.n,
        decreases work.depth@[l as int],
    {
        l = parent_of(work, l)?;
        r = parent_of(work, r)?;
    }
    Ok(l)
}

/// The tree arcs from `node` up to `join`, counting each inspection.
fn branch_to(work: &mut Work, node: usize, join: usize) -> (r: Result<Vec<(usize, usize)>, Nse>)
    requires
        old(work).wf(),
        node <= old(work).n,
    ensures
        ns_late(r),
        final(work).wf(),
        same_frame(&*final(work), &*old(work)),
        final(work).arcs == old(work).arcs,
        final(work).parent == old(work).parent,
        final(work).metrics.pivots == old(work).metrics.pivots,
        r matches Ok(b) ==> branch_ok(&*final(work), b@),
{
    let mut out: Vec<(usize, usize)> = Vec::new();
    let mut v = node;
    while v != join
        invariant
            work.wf(),
            same_frame(&*work, &*old(work)),
            work.arcs == old(work).arcs,
            work.parent == old(work).parent,
            work.metrics.pivots == old(work).metrics.pivots,
            v <= work.n,
            branch_ok(&*work, out@),
        decreases work.depth@[v as int],
    {
        let a = match work.parent_arc[v] {
            Some(a) => a,
            None => return fail(Nse::BasisInvariant),
        };
        out.push((v, a));
        v = parent_of(work, v)?;
        if work.metrics.cycle_arc_scans == u128::MAX {
            return fail(Nse::ArithmeticOverflow);
        }
        work.metrics.cycle_arc_scans = work.metrics.cycle_arc_scans + 1;
    }
    Ok(out)
}

fn basic_cycle(work: &mut Work, entering: usize) -> (r: Result<BasicCycle, Nse>)
    requires
        old(work).wf(),
    ensures
        ns_late(r),
        final(work).wf(),
        same_frame(&*final(work), &*old(work)),
        final(work).arcs == old(work).arcs,
        final(work).metrics.pivots == old(work).metrics.pivots,
        r matches Ok(c) ==> c.entering == entering && entering < final(work).arcs@.len()
            && c.first <= final(work).n && c.second <= final(work).n
            && branch_ok(&*final(work), c.first_branch@) && branch_ok(&*final(work), c.second_branch@),
{
    if entering >= work.arcs.len() {
        return fail(Nse::BasisInvariant);
    }
    let arc = work.arcs[entering];
    if arc.state == ArcState::Tree || arc.original.is_none() {
        return fail(Nse::BasisInvariant);
    }
    let (first, second, entering_forward) = if arc.state == ArcState::Lower { (arc.source, arc.target, true) } else { (arc.target, arc.source, false) };
    let join = lowest_common_ancestor(work, first, second)?;
    let first_branch = branch_to(work, first, join)?;
    let second_branch = branch_to(work, second, join)?;
    let residual_reduced_cost = entering_residual_reduced_cost(work, entering)?;
    if residual_reduced_cost >= 0 {
        return fail(Nse::BasisInvariant);
    }
    let mut original_path: Vec<(usize, bool)> = Vec::new();
    match original_residual(work, entering, first, second)? {
        Some(id) => original_path.push(id),
        None => return fail(Nse::BasisInvariant),
    }
    let mut i: usize = 0;
    while i < second_branch.len()
        invariant
            work.wf(),
            same_frame(&*work, &*old(work)),
            work.arcs == old(work).arcs,
            work.metrics.pivots == old(work).metrics.pivots,
            entering < work.arcs@.len(),
            branch_ok(&*work, first_branch@),
            branch_ok(&*work, second_branch@),
            i <= second_branch@.len(),
        decreases second_branch@.len() - i,
    {
        let (child, a) = second_branch[i];
        assert(child <= work.n) by {
            assert(second_branch@[i as int].0 <= work.n);
        }
        let p = parent_of(work, child)?;
        match original_residual(work, a, child, p)? {
            Some(id) => original_path.push(id),
            None => {},
        }
        i = i + 1;
    }
    let mut i = first_branch.len();
    while i > 0
        invariant
            work.wf(),
            same_frame(&*work, &*old(work)),
            work.arcs == old(work).arcs,
            work.metrics.pivots == old(work).metrics.pivots,
            entering < work.arcs@.len(),
            branch_ok(&*work, first_branch@),
            branch_ok(&*work, second_branch@),
            i <= first_branch@.len(),
        decreases i,
    {
        i = i - 1;
        let (child, a) = first_branch[i];
        assert(child <= work.n) by {
            assert(first_branch@[i as int].0 <= work.n);
        }
        let p = parent_of(work, child)?;
        match original_residual(work, a, p, child)? {
            Some(id) => original_path.push(id),
            None => {},
        }
    }
    Ok(BasicCycle { entering, entering_forward, first, second, join, first_branch, second_branch, residual_reduced_cost, original_path })
}

/// Residual capacity of a tree arc toward (`up`) or away from the root.
fn tree_path_residual(work: &Work, child: usize, up: bool) -> (r: Result<i128, Nse>)
    requires
        work.wf(),
        child <= work.n,
    ensures
        ns_late(r),
{
    let p = parent_of(work, child)?;
    let a = match work.parent_arc[child] {
        Some(a) => a,
        None => return fail(Nse::BasisInvariant),
    };
    if up { directed_residual(work.arcs[a], child, p) } else { directed_residual(work.arcs[a], p, child) }
}

/// Least stored directional value on the tree path from `node` up to
/// `ancestor`; `None` for an empty path.
fn path_minimum(work: &Work, up: bool, node: usize, ancestor: usize) -> (r: Result<Option<i128>, Nse>)
    requires
        work.wf(),
        node <= work.n,
    ensures
        ns_late(r),
{
    if node == ancestor {
        return Ok(None);
    }
    let mut best: Option<i128> = None;
    let mut v = node;
    while v != ancestor
        invariant
            work.wf(),
            v <= work.n,
        decreases work.depth@[v as int],
    {
        let a = match work.parent_arc[v] {
            Some(a) => a,
            None => return fail(Nse::BasisInvariant),
        };
        let value = if up { work.up_val[a] } else { work.down_val[a] };
        best = match best {
            Some(b) => Some(if value < b { value } else { b }),
            None => Some(value),
        };
        v = parent_of(work, v)?;
    }
    match best {
        Some(b) => Ok(Some(b)),
        None => fail(Nse::BasisInvariant),
    }
}

/// Adds `up_delta` to the upward and `down_delta` to the downward values on
/// the tree path from `node` up to `ancestor`.
fn path_add(work: &mut Work, node: usize, ancestor: usize, up_delta: i128, down_delta: i128) -> (r: Result<(), Nse>)
    requires
        old(work).wf(),
        node <= old(work).n,
    ensures
        ns_late(r),
        final(work).wf(),
        same_frame(&*final(work), &*old(work)),
        final(work).arcs == old(work).arcs,
        final(work).parent == old(work).parent,
        final(work).metrics == old(work).metrics,
{
    let mut v = node;
    while v != ancestor
        invariant
            work.wf(),
            same_frame(&*work, &*old(work)),
            work.arcs == old(work).arcs,
            work.parent == old(work).parent,
            work.metrics == old(work).metrics,
            v <= work.n,
        decreases work.depth@[v as int],
    {
        let a = match work.parent_arc[v] {
            Some(a) => a,
            None => return fail(Nse::BasisInvariant),
        };
        match work.up_val[a].checked_add(up_delta) {
            Some(x) => work.up_val.set(a, x),
            None => return fail(Nse::ArithmeticOverflow),
        }
        match work.down_val[a].checked_add(down_delta) {
            Some(x) => work.down_val.set(a, x),
            None => return fail(Nse::ArithmeticOverflow),
        }
        v = parent_of(work, v)?;
    }
    Ok(())
}

fn augment_arc(work: &mut Work, a: usize, forward: bool, delta: i128) -> (r: Result<(), Nse>)
    requires
        old(work).wf(),
    ensures
        ns_late(r),
        final(work).wf(),
        same_frame(&*final(work), &*old(work)),
        final(work).metrics == old(work).metrics,
{
    if a >= work.arcs.len() {
        return fail(Nse::BasisInvariant);
    }
    let arc = work.arcs[a];
    let flow = match if forward { arc.flow.checked_add(delta) } else { arc.flow.checked_sub(delta) } {
        Some(x) => x,
        None => return fail(Nse::ArithmeticOverflow),
    };
    if flow < 0 || flow > arc.capacity {
        return fail(Nse::BasisInvariant);
    }
    set_arc(work, a, flow, arc.state);
    Ok(())
}

fn augment_directed(work: &mut Work, a: usize, from: usize, to: usize, delta: i128) -> (r: Result<(), Nse>)
    requires
        old(work).wf(),
    ensures
        ns_late(r),
        final(work).wf(),
        same_frame(&*final(work), &*old(work)),
        final(work).metrics == old(work).metrics,
{
    if a >= work.arcs.len() {
        return fail(Nse::BasisInvariant);
    }
    let arc = work.arcs[a];
    let forward = if arc.source == from && arc.target == to {
        true
    } else if arc.source == to && arc.target == from {
        false
    } else {
        return fail(Nse::BasisInvariant);
    };
    augment_arc(work, a, forward, delta)
}

/// One pivot: push the bottleneck around the basic cycle, then exchange the
/// leaving arc (strict ties on the first branch, last tie on the second) or
/// flip the entering arc to its opposite bound.
#[verifier::rlimit(60)]
fn pivot(work: &mut Work, cycle: &BasicCycle) -> (r: Result<(i128, bool), Nse>)
    requires
        old(work).wf(),
        cycle.entering < old(work).arcs@.len(),
        branch_ok(&*old(work), cycle.first_branch@),
        branch_ok(&*old(work), cycle.second_branch@),
        cycle.first <= old(work).n,
        cycle.second <= old(work).n,
        old(work).metrics.pivots < NETWORK_SIMPLEX_MAX_PIVOTS,
    ensures
        ns_late(r),
        r is Ok ==> final(work).wf(),
        same_frame(&*final(work), &*old(work)),
        r is Ok ==> final(work).metrics.pivots == old(work).metrics.pivots + 1,
{
    let entering = cycle.entering;
    let arc = work.arcs[entering];
    let entering_residual = match arc.state {
        ArcState::Lower => match arc.capacity.checked_sub(arc.flow) {
            Some(x) => x,
            None => return fail(Nse::ArithmeticOverflow),
        },
        ArcState::Upper => arc.flow,
        ArcState::Tree => return fail(Nse::BasisInvariant),
    };
    let mut bottleneck = entering_residual;
    if work.dynamic {
        match path_minimum(work, false, cycle.first, cycle.join)? {
            Some(value) => {
                if value < bottleneck {
                    bottleneck = value;
                }
                if work.dyn_metrics.path_minimum_queries == u64::MAX {
                    return fail(Nse::ArithmeticOverflow);
                }
                work.dyn_metrics.path_minimum_queries = work.dyn_metrics.path_minimum_queries + 1;
            },
            None => {},
        }
        match path_minimum(work, true, cycle.second, cycle.join)? {
            Some(value) => {
                if value < bottleneck {
                    bottleneck = value;
                }
                if work.dyn_metrics.path_minimum_queries == u64::MAX {
                    return fail(Nse::ArithmeticOverflow);
                }
                work.dyn_metrics.path_minimum_queries = work.dyn_metrics.path_minimum_queries + 1;
            },
            None => {},
        }
    }
    let mut delta = entering_residual;
    let mut leaving: Option<usize> = None;
    let mut i: usize = 0;
    while i < cycle.first_branch.len()
        invariant
            work.wf(),
            same_frame(&*work, &*old(work)),
            work.metrics == old(work).metrics,
            branch_ok(&*work, cycle.first_branch@),
            i <= cycle.first_branch@.len(),
            leaving matches Some(l) ==> l < work.arcs@.len(),
        decreases cycle.first_branch@.len() - i,
    {
        let (child, a) = cycle.first_branch[i];
        assert(child <= work.n && a < work.arcs@.len()) by {
            assert(cycle.first_branch@[i as int] == (child, a));
        }
        let residual = tree_path_residual(work, child, false)?;
        if residual < delta {
            delta = residual;
            leaving = Some(a);
        }
        i = i + 1;
    }
    let mut i: usize = 0;
    while i < cycle.second_branch.len()
        invariant
            work.wf(),
            same_frame(&*work, &*old(work)),
            work.metrics == old(work).metrics,
            branch_ok(&*work, cycle.second_branch@),
            i <= cycle.second_branch@.len(),
            leaving matches Some(l) ==> l < work.arcs@.len(),
        decreases cycle.second_branch@.len() - i,
    {
        let (child, a) = cycle.second_branch[i];
        assert(child <= work.n && a < work.arcs@.len()) by {
            assert(cycle.second_branch@[i as int] == (child, a));
        }
        let residual = tree_path_residual(work, child, true)?;
        if residual <= delta {
            delta = residual;
            leaving = Some(a);
        }
        i = i + 1;
    }
    if delta < 0 {
        return fail(Nse::BasisInvariant);
    }
    if work.dynamic && bottleneck != delta {
        return fail(Nse::BasisInvariant);
    }
    if delta == i128::MIN {
        return fail(Nse::ArithmeticOverflow);
    }
    if work.dynamic {
        if cycle.first != cycle.join {
            path_add(work, cycle.first, cycle.join, delta, -delta)?;
            if work.dyn_metrics.path_updates == u64::MAX {
                return fail(Nse::ArithmeticOverflow);
            }
            work.dyn_metrics.path_updates = work.dyn_metrics.path_updates + 1;
        }
        if cycle.second != cycle.join {
            path_add(work, cycle.second, cycle.join, -delta, delta)?;
            if work.dyn_metrics.path_updates == u64::MAX {
                return fail(Nse::ArithmeticOverflow);
            }
            work.dyn_metrics.path_updates = work.dyn_metrics.path_updates + 1;
        }
    }
    augment_arc(work, entering, cycle.entering_forward, delta)?;
    let mut i: usize = 0;
    while i < cycle.second_branch.len()
        invariant
            work.wf(),
            same_frame(&*work, &*old(work)),
            work.metrics == old(work).metrics,
            branch_ok(&*work, cycle.second_branch@),
            leaving matches Some(l) ==> l < work.arcs@.len(),
            entering < work.arcs@.len(),
            i <= cycle.second_branch@.len(),
        decreases cycle.second_branch@.len() - i,
    {
        let (child, a) = cycle.second_branch[i];
        assert(child <= work.n) by {
            assert(cycle.second_branch@[i as int] == (child, a));
        }
        let p = parent_of(work, child)?;
        augment_directed(work, a, child, p, delta)?;
        i = i + 1;
    }
    let mut i = cycle.first_branch.len();
    while i > 0
        invariant
            work.wf(),
            same_frame(&*work, &*old(work)),
            work.metrics == old(work).metrics,
            branch_ok(&*work, cycle.first_branch@),
            leaving matches Some(l) ==> l < work.arcs@.len(),
            entering < work.arcs@.len(),
            i <= cycle.first_branch@.len(),
        decreases i,
    {
        i = i - 1;
        let (child, a) = cycle.first_branch[i];
        assert(child <= work.n) by {
            assert(cycle.first_branch@[i as int] == (child, a));
        }
        let p = parent_of(work, child)?;
        augment_directed(work, a, p, child, delta)?;
    }
    work.metrics.pivots = work.metrics.pivots + 1;
    if delta == 0 {
        work.metrics.degenerate_pivots = sat_inc(work.metrics.degenerate_pivots);
    } else {
        work.metrics.nondegenerate_pivots = sat_inc(work.metrics.nondegenerate_pivots);
    }
    let changed = match leaving {
        Some(l) => {
            if work.dynamic {
                if work.dyn_metrics.tree_cuts == u64::MAX {
                    return fail(Nse::ArithmeticOverflow);
                }
                work.dyn_metrics.tree_cuts = work.dyn_metrics.tree_cuts + 1;
                let e = work.arcs[entering];
                directed_residual(e, e.source, e.target)?;
                directed_residual(e, e.target, e.source)?;
                if work.dyn_metrics.tree_links == u64::MAX {
                    return fail(Nse::ArithmeticOverflow);
                }
                work.dyn_metrics.tree_links = work.dyn_metrics.tree_links + 1;
            }
            let e = work.arcs[entering];
            set_arc(work, entering, e.flow, ArcState::Tree);
            let leaving_arc = work.arcs[l];
            let state = if leaving_arc.flow == 0 {
                ArcState::Lower
            } else if leaving_arc.flow == leaving_arc.capacity {
                ArcState::Upper
            } else {
                return fail(Nse::BasisInvariant);
            };
            set_arc(work, l, leaving_arc.flow, state);
            work.metrics.basis_exchanges = sat_inc(work.metrics.basis_exchanges);
            rebuild_tree_and_potentials(work)?;
            rebuild_directional_basis(work)?;
            true
        },
        None => {
            let e = work.arcs[entering];
            let flipped = match e.state {
                ArcState::Lower => ArcState::Upper,
                ArcState::Upper => ArcState::Lower,
                ArcState::Tree => return fail(Nse::BasisInvariant),
            };
            set_arc(work, entering, e.flow, flipped);
            work.metrics.bound_flips = sat_inc(work.metrics.bound_flips);
            validate_directional_basis(work)?;
            false
        },
    };
    validate_basis(work)?;
    Ok((delta, changed))
}


/// A finished run: the result, the variant's counters, and the trace.
struct SimplexRun {
    result: NetworkSimplexResult,
    extra: DynamicTreeNetworkSimplexMetrics,
    trace: Option<TraceParts>,
}

fn simplex_internal(
    graph: &FlowNetwork,
    required: &[i128],
    record_trace: bool,
    dynamic: bool,
    feasibility: &mut FeasibilityExecution,
) -> (r: Result<SimplexRun, Nse>)
    ensures
        r matches Err(e) ==> (e is AdmissionLimit ==> *final(feasibility) == *old(feasibility)),
        r matches Ok(run) ==> certified_min_cost(*graph, required@, run.result.flows@, run.result.certificate),
        r matches Ok(run) ==> (run.trace matches Some(t) ==> replayable(t)),
        r matches Ok(run) ==> run.result.artificial_cost == artificial_arc_cost(*graph)
            && is_ceil_sqrt(graph.m() as int, run.result.pricing_block_size as int),
        r == Err::<SimplexRun, Nse>(Nse::AdmissionLimit) <==> simplex_over_admission(*graph),
        r == Err::<SimplexRun, Nse>(Nse::Feasibility(FeasibilityError::LengthMismatch))
            <==> !simplex_over_admission(*graph) && required@.len() != graph.n(),
        r == Err::<SimplexRun, Nse>(Nse::Feasibility(FeasibilityError::Infeasible))
            ==> forall|f: Seq<int>| !#[trigger] feasible_flow(*graph, f, wide(required@)),
{
    proof {
        use_type_invariant(graph);
    }
    if graph.nodes().len() > NETWORK_SIMPLEX_MAX_NODES || graph.edges().len() > NETWORK_SIMPLEX_MAX_EDGES {
        return Err(Nse::AdmissionLimit);
    }
    match feasibility.find_feasible_flow(graph, required, FeasibilityUse::PrecheckOnly) {
        Ok(_) => {},
        Err(e) => return Err(Nse::Feasibility(e)),
    }
    let mut work = initialize(graph, required, dynamic)?;
    let artificial_cost = work.artificial_cost;
    let pricing_block_size = work.pricing_block_size;
    let empty_order: Vec<usize> = Vec::new();
    let empty: Vec<(usize, bool)> = Vec::new();
    let mut recorder: Option<FlowTraceRecorder> = None;
    if record_trace {
        let snapshot = snapshot_of(&work, graph, &empty_order, &empty)?;
        recorder = match FlowTraceRecorder::new(graph, snapshot) {
            Ok(rec) => Some(rec),
            Err(e) => return fail(Nse::Trace(e)),
        };
    }
    let artificial = total_artificial_flow(&work)?;
    record(&mut recorder, &work, graph, EventKind::Initialize, &empty_order, &empty, Some(("artificial-flow", artificial)))?;
    loop
        invariant
            work.wf(),
            work.n == graph.n(),
            work.m == graph.m(),
            work.dynamic == dynamic,
            required@.len() == graph.n(),
            !simplex_over_admission(*graph),
            work.metrics.pivots <= NETWORK_SIMPLEX_MAX_PIVOTS,
        decreases NETWORK_SIMPLEX_MAX_PIVOTS - work.metrics.pivots,
    {
        let (entering, scanned) = find_entering_arc(&mut work, &mut recorder, graph)?;
        let detail = match entering {
            Some(a) => Some(("reduced-cost", entering_residual_reduced_cost(&work, a)?)),
            None => None,
        };
        record(&mut recorder, &work, graph, EventKind::Price, &scanned, &empty, detail)?;
        let entering = match entering {
            Some(a) => a,
            None => break,
        };
        if work.metrics.pivots >= NETWORK_SIMPLEX_MAX_PIVOTS {
            return fail(Nse::WorkLimit);
        }
        let cycle = basic_cycle(&mut work, entering)?;
        let mut order: Vec<usize> = Vec::new();
        order.push(cycle.first);
        order.push(cycle.second);
        order.push(cycle.join);
        record(&mut recorder, &work, graph, EventKind::FormCycle, &order, &cycle.original_path, Some(("cycle-cost", cycle.residual_reduced_cost)))?;
        let (delta, changed) = pivot(&mut work, &cycle)?;
        let kind = if changed { EventKind::ExchangeBasis } else { EventKind::FlipBound };
        record(&mut recorder, &work, graph, kind, &empty_order, &empty, Some(("delta", delta)))?;
    }
    if total_artificial_flow(&work)? != 0 {
        return fail(Nse::ArtificialFlow);
    }
    validate_basis(&work)?;
    let flows = original_flows(&work, graph)?;
    let certificate = match check_min_cost_flow(graph, required, flows.as_slice()) {
        Ok(c) => c,
        Err(e) => return fail(Nse::Certificate(e)),
    };
    record(&mut recorder, &work, graph, EventKind::Optimal, &empty_order, &empty, Some(("total-cost", certificate.total_cost)))?;
    let extra = DynamicTreeNetworkSimplexMetrics { simplex: work.metrics, ..work.dyn_metrics };
    let trace = match recorder {
        Some(rec) => Some(rec.finish()),
        None => None,
    };
    Ok(SimplexRun {
        result: NetworkSimplexResult {
            flows,
            certificate,
            metrics: work.metrics,
            artificial_cost,
            pricing_block_size,
        },
        extra,
        trace,
    })
}

fn dynamic_result(result: NetworkSimplexResult, metrics: DynamicTreeNetworkSimplexMetrics) -> (r: DynamicTreeNetworkSimplexResult)
    ensures
        r.artificial_cost == result.artificial_cost,
        r.pricing_block_size == result.pricing_block_size,
        r.flows == result.flows,
        r.certificate == result.certificate,
        r.metrics == metrics,
{
    DynamicTreeNetworkSimplexResult {
        flows: result.flows,
        certificate: result.certificate,
        metrics,
        artificial_cost: result.artificial_cost,
        pricing_block_size: result.pricing_block_size,
    }
}

/// Solves exact balanced minimum-cost flow by the natural primal network
/// simplex: a strongly feasible artificial-root star basis, cyclic
/// square-root block pricing, and the strong-feasibility leaving-arc tie rule.
pub fn solve_primal_network_simplex(graph: &FlowNetwork, required_divergence: &[i128]) -> (r: Result<NetworkSimplexResult, NetworkSimplexError>)
    ensures
        r matches Ok(res) ==> certified_min_cost(*graph, required_divergence@, res.flows@, res.certificate),
        r matches Ok(res) ==> res.artificial_cost == artificial_arc_cost(*graph)
            && is_ceil_sqrt(graph.m() as int, res.pricing_block_size as int),
        r == Err::<NetworkSimplexResult, Nse>(Nse::AdmissionLimit) <==> simplex_over_admission(*graph),
        r == Err::<NetworkSimplexResult, Nse>(Nse::Feasibility(FeasibilityError::LengthMismatch))
            <==> !simplex_over_admission(*graph) && required_divergence@.len() != graph.n(),
        r == Err::<NetworkSimplexResult, Nse>(Nse::Feasibility(FeasibilityError::Infeasible))
            ==> forall|f: Seq<int>| !#[trigger] feasible_flow(*graph, f, wide(required_divergence@)),
{
    let mut feasibility = FeasibilityExecution::untracked();
    match simplex_internal(graph, required_divergence, false, false, &mut feasibility) {
        Ok(run) => Ok(run.result),
        Err(e) => Err(e),
    }
}

/// Solves primal network simplex while reporting its feasibility precheck to
/// the enclosing execution.
pub fn solve_primal_network_simplex_with_feasibility(
    graph: &FlowNetwork,
    required_divergence: &[i128],
    feasibility: &mut FeasibilityExecution,
) -> (r: Result<NetworkSimplexResult, NetworkSimplexError>)
    ensures
        r matches Err(e) ==> (e is AdmissionLimit ==> *final(feasibility) == *old(feasibility)),
        r matches Ok(res) ==> certified_min_cost(*graph, required_divergence@, res.flows@, res.certificate),
        r matches Ok(res) ==> res.artificial_cost == artificial_arc_cost(*graph)
            && is_ceil_sqrt(graph.m() as int, res.pricing_block_size as int),
        r == Err::<NetworkSimplexResult, Nse>(Nse::AdmissionLimit) <==> simplex_over_admission(*graph),
        r == Err::<NetworkSimplexResult, Nse>(Nse::Feasibility(FeasibilityError::LengthMismatch))
            <==> !simplex_over_admission(*graph) && required_divergence@.len() != graph.n(),
        r == Err::<NetworkSimplexResult, Nse>(Nse::Feasibility(FeasibilityError::Infeasible))
            ==> forall|f: Seq<int>| !#[trigger] feasible_flow(*graph, f, wide(required_divergence@)),
{
    match simplex_internal(graph, required_divergence, false, false, feasibility) {
        Ok(run) => Ok(run.result),
        Err(e) => Err(e),
    }
}

fn traced(run: SimplexRun) -> (r: Result<NetworkSimplexTraceResult, Nse>)
    requires
        run.trace matches Some(t) ==> replayable(t),
    ensures
        r matches Ok(t) ==> trace_replays(trace_view(t.base_snapshot), t.events@, trace_view(t.final_snapshot)),
        r matches Ok(t) ==> t.result == run.result,
        r is Err ==> r == Err::<NetworkSimplexTraceResult, Nse>(Nse::BasisInvariant),
{
    match run.trace {
        Some((base_snapshot, events, final_snapshot)) => Ok(NetworkSimplexTraceResult { result: run.result, base_snapshot, events, final_snapshot }),
        None => Err(Nse::BasisInvariant),
    }
}

fn traced_dynamic(run: SimplexRun) -> (r: Result<DynamicTreeNetworkSimplexTraceResult, Nse>)
    requires
        run.trace matches Some(t) ==> replayable(t),
    ensures
        r matches Ok(t) ==> trace_replays(trace_view(t.base_snapshot), t.events@, trace_view(t.final_snapshot)),
        r matches Ok(t) ==> t.result.flows == run.result.flows && t.result.certificate == run.result.certificate,
        r matches Ok(t) ==> t.result.artificial_cost == run.result.artificial_cost
            && t.result.pricing_block_size == run.result.pricing_block_size,
        r is Err ==> r == Err::<DynamicTreeNetworkSimplexTraceResult, Nse>(Nse::BasisInvariant),
{
    match run.trace {
        Some((base_snapshot, events, final_snapshot)) => Ok(DynamicTreeNetworkSimplexTraceResult {
            result: dynamic_result(run.result, run.extra),
            base_snapshot,
            events,
            final_snapshot,
        }),
        None => Err(Nse::BasisInvariant),
    }
}

/// Records every pricing, basic-cycle, and basis-update boundary.
pub fn trace_primal_network_simplex(graph: &FlowNetwork, required_divergence: &[i128]) -> (r: Result<NetworkSimplexTraceResult, NetworkSimplexError>)
    ensures
        r matches Ok(res) ==> certified_min_cost(*graph, required_divergence@, res.result.flows@, res.result.certificate),
        r matches Ok(res) ==> res.result.artificial_cost == artificial_arc_cost(*graph)
            && is_ceil_sqrt(graph.m() as int, res.result.pricing_block_size as int),
        r matches Ok(res) ==> trace_replays(trace_view(res.base_snapshot), res.events@, trace_view(res.final_snapshot)),
        r == Err::<NetworkSimplexTraceResult, Nse>(Nse::AdmissionLimit) <==> simplex_over_admission(*graph),
        r == Err::<NetworkSimplexTraceResult, Nse>(Nse::Feasibility(FeasibilityError::LengthMismatch))
            <==> !simplex_over_admission(*graph) && required_divergence@.len() != graph.n(),
        r == Err::<NetworkSimplexTraceResult, Nse>(Nse::Feasibility(FeasibilityError::Infeasible))
            ==> forall|f: Seq<int>| !#[trigger] feasible_flow(*graph, f, wide(required_divergence@)),
{
    let mut feasibility = FeasibilityExecution::untracked();
    traced(simplex_internal(graph, required_divergence, true, false, &mut feasibility)?)
}

/// Traces primal network simplex while publishing its feasibility precheck
/// to the enclosing execution.
pub fn trace_primal_network_simplex_with_feasibility(
    graph: &FlowNetwork,
    required_divergence: &[i128],
    feasibility: &mut FeasibilityExecution,
) -> (r: Result<NetworkSimplexTraceResult, NetworkSimplexError>)
    ensures
        r matches Err(e) ==> (e is AdmissionLimit ==> *final(feasibility) == *old(feasibility)),
        r matches Ok(res) ==> certified_min_cost(*graph, required_divergence@, res.result.flows@, res.result.certificate),
        r matches Ok(res) ==> res.result.artificial_cost == artificial_arc_cost(*graph)
            && is_ceil_sqrt(graph.m() as int, res.result.pricing_block_size as int),
        r matches Ok(res) ==> trace_replays(trace_view(res.base_snapshot), res.events@, trace_view(res.final_snapshot)),
        r == Err::<NetworkSimplexTraceResult, Nse>(Nse::AdmissionLimit) <==> simplex_over_admission(*graph),
        r == Err::<NetworkSimplexTraceResult, Nse>(Nse::Feasibility(FeasibilityError::LengthMismatch))
            <==> !simplex_over_admission(*graph) && required_divergence@.len() != graph.n(),
        r == Err::<NetworkSimplexTraceResult, Nse>(Nse::Feasibility(FeasibilityError::Infeasible))
            ==> forall|f: Seq<int>| !#[trigger] feasible_flow(*graph, f, wide(required_divergence@)),
{
    traced(simplex_internal(graph, required_divergence, true, false, feasibility)?)
}

/// Solves balanced minimum-cost flow with the same pivot rule, reading every
/// cycle bottleneck as the least directional residual value on the two tree
/// paths and updating those values along the paths; the rooted tree and its
/// potentials are still rebuilt after each exchange.
pub fn solve_dynamic_tree_network_simplex(graph: &FlowNetwork, required_divergence: &[i128]) -> (r: Result<DynamicTreeNetworkSimplexResult, NetworkSimplexError>)
    ensures
        r matches Ok(res) ==> certified_min_cost(*graph, required_divergence@, res.flows@, res.certificate),
        r matches Ok(res) ==> res.artificial_cost == artificial_arc_cost(*graph)
            && is_ceil_sqrt(graph.m() as int, res.pricing_block_size as int),
        r == Err::<DynamicTreeNetworkSimplexResult, Nse>(Nse::AdmissionLimit) <==> simplex_over_admission(*graph),
        r == Err::<DynamicTreeNetworkSimplexResult, Nse>(Nse::Feasibility(FeasibilityError::LengthMismatch))
            <==> !simplex_over_admission(*graph) && required_divergence@.len() != graph.n(),
        r == Err::<DynamicTreeNetworkSimplexResult, Nse>(Nse::Feasibility(FeasibilityError::Infeasible))
            ==> forall|f: Seq<int>| !#[trigger] feasible_flow(*graph, f, wide(required_divergence@)),
{
    let mut feasibility = FeasibilityExecution::untracked();
    match simplex_internal(graph, required_divergence, false, true, &mut feasibility) {
        Ok(run) => Ok(dynamic_result(run.result, run.extra)),
        Err(e) => Err(e),
    }
}

/// Solves the directional-forest variant while reporting its feasibility
/// precheck to the enclosing execution.
pub fn solve_dynamic_tree_network_simplex_with_feasibility(
    graph: &FlowNetwork,
    required_divergence: &[i128],
    feasibility: &mut FeasibilityExecution,
) -> (r: Result<DynamicTreeNetworkSimplexResult, NetworkSimplexError>)
    ensures
        r matches Err(e) ==> (e is AdmissionLimit ==> *final(feasibility) == *old(feasibility)),
        r matches Ok(res) ==> certified_min_cost(*graph, required_divergence@, res.flows@, res.certificate),
        r matches Ok(res) ==> res.artificial_cost == artificial_arc_cost(*graph)
            && is_ceil_sqrt(graph.m() as int, res.pricing_block_size as int),
        r == Err::<DynamicTreeNetworkSimplexResult, Nse>(Nse::AdmissionLimit) <==> simplex_over_admission(*graph),
        r == Err::<DynamicTreeNetworkSimplexResult, Nse>(Nse::Feasibility(FeasibilityError::LengthMismatch))
            <==> !simplex_over_admission(*graph) && required_divergence@.len() != graph.n(),
        r == Err::<DynamicTreeNetworkSimplexResult, Nse>(Nse::Feasibility(FeasibilityError::Infeasible))
            ==> forall|f: Seq<int>| !#[trigger] feasible_flow(*graph, f, wide(required_divergence@)),
{
    match simplex_internal(graph, required_divergence, false, true, feasibility) {
        Ok(run) => Ok(dynamic_result(run.result, run.extra)),
        Err(e) => Err(e),
    }
}

/// Records every directional-forest pricing, cycle-minimum, and exchange
/// boundary.
pub fn trace_dynamic_tree_network_simplex(graph: &FlowNetwork, required_divergence: &[i128]) -> (r: Result<DynamicTreeNetworkSimplexTraceResult, NetworkSimplexError>)
    ensures
        r matches Ok(res) ==> certified_min_cost(*graph, required_divergence@, res.result.flows@, res.result.certificate),
        r matches Ok(res) ==> res.result.artificial_cost == artificial_arc_cost(*graph)
            && is_ceil_sqrt(graph.m() as int, res.result.pricing_block_size as int),
        r matches Ok(res) ==> trace_replays(trace_view(res.base_snapshot), res.events@, trace_view(res.final_snapshot)),
        r == Err::<DynamicTreeNetworkSimplexTraceResult, Nse>(Nse::AdmissionLimit) <==> simplex_over_admission(*graph),
        r == Err::<DynamicTreeNetworkSimplexTraceResult, Nse>(Nse::Feasibility(FeasibilityError::LengthMismatch))
            <==> !simplex_over_admission(*graph) && required_divergence@.len() != graph.n(),
        r == Err::<DynamicTreeNetworkSimplexTraceResult, Nse>(Nse::Feasibility(FeasibilityError::Infeasible))
            ==> forall|f: Seq<int>| !#[trigger] feasible_flow(*graph, f, wide(required_divergence@)),
{
    let mut feasibility = FeasibilityExecution::untracked();
    traced_dynamic(simplex_internal(graph, required_divergence, true, true, &mut feasibility)?)
}

/// Traces the directional-forest variant while publishing its feasibility
/// precheck to the enclosing execution.
pub fn trace_dynamic_tree_network_simplex_with_feasibility(
    graph: &FlowNetwork,
    required_divergence: &[i128],
    feasibility: &mut FeasibilityExecution,
) -> (r: Result<DynamicTreeNetworkSimplexTraceResult, NetworkSimplexError>)
    ensures
        r matches Err(e) ==> (e is AdmissionLimit ==> *final(feasibility) == *old(feasibility)),
        r matches Ok(res) ==> certified_min_cost(*graph, required_divergence@, res.result.flows@, res.result.certificate),
        r matches Ok(res) ==> res.result.artificial_cost == artificial_arc_cost(*graph)
            && is_ceil_sqrt(graph.m() as int, res.result.pricing_block_size as int),
        r matches Ok(res) ==> trace_replays(trace_view(res.base_snapshot), res.events@, trace_view(res.final_snapshot)),
        r == Err::<DynamicTreeNetworkSimplexTraceResult, Nse>(Nse::AdmissionLimit) <==> simplex_over_admission(*graph),
        r == Err::<DynamicTreeNetworkSimplexTraceResult, Nse>(Nse::Feasibility(FeasibilityError::LengthMismatch))
            <==> !simplex_over_admission(*graph) && required_divergence@.len() != graph.n(),
        r == Err::<DynamicTreeNetworkSimplexTraceResult, Nse>(Nse::Feasibility(FeasibilityError::Infeasible))
            ==> forall|f: Seq<int>| !#[trigger] feasible_flow(*graph, f, wide(required_divergence@)),
{
    traced_dynamic(simplex_internal(graph, required_divergence, true, true, feasibility)?)
}

} // verus!
