//! The exact, integral side of the bounded interior-point maximum-flow method
//! on unit-capacity networks.
//!
//! The method reduces a unit-capacity maximum-flow instance to a perfect
//! bipartite `b`-matching and then to an uncapacitated demand-flow instance,
//! follows the central path in floating point, and recovers an integral flow
//! by rounding a fractional `b`-matching.  Everything here is exact: the
//! admission rules, the enumerated target cut, both reductions, the perfect
//! matchings of the recovery, the integral flow and its certificate, and the
//! checks that a published trace must pass.  The central path itself works on
//! floating-point values and is driven from outside the library.
use vstd::prelude::*;
use vstd::string::StringSliceAdditionalSpecFns;
use vstd::utf8::encode_utf8;
use crate::ids::same_text;
use vstd::arithmetic::power2::pow2;

use crate::certificate::{check_max_flow, MaxFlowCertificate};
use crate::flows::{cut_capacity, cut_prefix, cut_term, flow_value, ints, is_maximum_flow, is_st_cut, lemma_flow_value_at_most_cut, feasible_st_flow};
use crate::ids::EdgeId;
use crate::model::{FlowNetwork, NodeIndex};
use crate::residual::{count_true, forced, lemma_count_true_bounds, lemma_count_true_set};

verus! {

use self::InteriorPointMaxFlowStage as Stage;

/// Original-node ceiling for exact cut enumeration and dense reduction solves.
pub const INTERIOR_POINT_MAX_FLOW_MAX_NODES: usize = 8;
/// Original-edge ceiling for the bounded reductions and dense solves.
pub const INTERIOR_POINT_MAX_FLOW_MAX_EDGES: usize = 10;
/// Maximum reduced min-cost-flow vertices.
pub const INTERIOR_POINT_MAX_FLOW_MAX_WORKING_NODES: usize = 64;
/// Maximum reduced min-cost-flow arcs, including the hub arcs.
pub const INTERIOR_POINT_MAX_FLOW_MAX_WORKING_EDGES: usize = 192;
/// Deterministic central-path progress ceiling.
pub const INTERIOR_POINT_MAX_FLOW_MAX_PROGRESS_STEPS: u64 = 4_096;
/// Maximum public trace boundaries.
pub const INTERIOR_POINT_MAX_FLOW_MAX_TRACE_EVENTS: usize = 16_384;

/// The biased exponent of an IEEE-754 double held in `bits`.
pub open spec fn exponent_field(bits: u64) -> nat {
    (bits as nat / 0x10_0000_0000_0000) % 0x800
}

/// The double held in `bits` is finite and is not a negative zero.
pub open spec fn canonical_finite(bits: u64) -> bool {
    exponent_field(bits) != 0x7ff && bits != 0x8000_0000_0000_0000
}

/// A finite replay-safe scalar, stored by its exact IEEE-754 bit pattern
/// with negative zero folded into positive zero.
#[derive(Clone, Copy, Debug, Eq, Ord, PartialEq, PartialOrd, Hash, Structural)]
pub struct InteriorPointScalar {
    bits: u64,
}

impl View for InteriorPointScalar {
    type V = u64;

    closed spec fn view(&self) -> u64 {
        self.bits
    }
}

impl InteriorPointScalar {
    /// Every scalar is finite and canonical.
    #[verifier::type_invariant]
    spec fn canonical(self) -> bool {
        canonical_finite(self.bits)
    }

    /// The scalar for a bit pattern; `None` for an infinity or a NaN.  A
    /// negative zero becomes the positive zero.
    pub fn from_bits(bits: u64) -> (r: Option<InteriorPointScalar>)
        ensures
            r is None <==> exponent_field(bits) == 0x7ff,
            r matches Some(x) ==> x@ == (if bits == 0x8000_0000_0000_0000 { 0 } else { bits }),
    {
        if (bits >> 52u64) & 0x7ffu64 == 0x7ffu64 {
            proof {
                lemma_exponent_field(bits);
            }
            return None;
        }
        proof {
            lemma_exponent_field(bits);
        }
        if bits == 0x8000_0000_0000_0000u64 {
            assert(exponent_field(0) == 0);
            Some(InteriorPointScalar { bits: 0 })
        } else {
            Some(InteriorPointScalar { bits })
        }
    }

    /// The positive zero.
    pub fn zero() -> (r: InteriorPointScalar)
        ensures
            r@ == 0,
    {
        assert(exponent_field(0) == 0);
        InteriorPointScalar { bits: 0 }
    }

    /// The exact bit pattern.
    pub fn to_bits(self) -> (r: u64)
        ensures
            r == self@,
    {
        self.bits
    }

    /// Whether the scalar is zero.
    pub fn is_zero(self) -> (r: bool)
        ensures
            r <==> self@ == 0,
    {
        self.bits == 0
    }
}

proof fn lemma_exponent_field(bits: u64)
    ensures
        (((bits >> 52u64) & 0x7ffu64) == 0x7ffu64) <==> exponent_field(bits) == 0x7ff,
{
    assert(((bits >> 52u64) & 0x7ffu64) == (bits >> 52u64) % 0x800u64) by (bit_vector);
    vstd::bits::lemma_u64_shr_is_div(bits, 52u64);
    assert(pow2(52) == 0x10_0000_0000_0000) by {
        vstd::arithmetic::power2::lemma2_to64_rest();
    }
}

/// Source-level or bounded rounding boundary.
#[derive(Clone, Copy, Debug, Eq, PartialEq, Structural)]
pub enum InteriorPointMaxFlowStage {
    /// Valid unit-capacity graph; no target or reduction has been published.
    Ready,
    /// Every bounded `s`-side cut was inspected and the minimum value installed.
    EnumerateTargetCut,
    /// The perfect `b`-matching reduction was built.
    BuildBMatchingReduction,
    /// The unit-length demand-flow reduction was built.
    BuildMinCostReduction,
    /// The explicit zero-centered primal-dual state was installed.
    InitializeCentralPath,
    /// The associated electrical demand flow was solved.
    SolveElectricalDirection,
    /// One selected reduced Laplacian equation was eliminated.
    SolveElectricalPivot,
    /// The descent step advanced primal flow and dual slack.
    DescentStep,
    /// The electrical correction of the centering step was solved.
    SolveCenteringDirection,
    /// The centering step restored the centered feasible state.
    CenteringStep,
    /// Direct matching arcs were projected back to fractional original flow.
    ExtractFractionalFlow,
    /// The `b`-matching recovery produced an integral unit flow.
    RoundIntegralFlow,
    /// Feasibility, residual maximality, and the original cut were checked.
    CheckCertificate,
    /// Certified unit-capacity maximum flow is public.
    Optimal,
}

/// Original-node projection of reduced electrical potentials and the target cut.
#[derive(Clone, Debug, Eq, PartialEq)]
pub struct InteriorPointNodeState {
    /// Canonical original node.
    pub node: NodeIndex,
    /// Average reduced potential of the node's copies, or zero at a terminal.
    pub potential: InteriorPointScalar,
    /// Whether the enumerated exact target cut contains this node.
    pub target_source_side: bool,
}

/// Original-edge projection of the bipartite direct arc and central-path state.
#[derive(Clone, Debug, Eq, PartialEq)]
pub struct InteriorPointEdgeState {
    /// Stable original edge identity.
    pub edge: EdgeId,
    /// Flow on the direct matching arc.
    pub fractional_flow: InteriorPointScalar,
    /// Latest associated or centering electrical current on that direct arc.
    pub electrical_current: InteriorPointScalar,
    /// Dual slack of the direct arc.
    pub slack: InteriorPointScalar,
    /// Arc measure.
    pub measure: InteriorPointScalar,
    /// Resistance: slack over flow.
    pub resistance: InteriorPointScalar,
    /// Absolute electrical congestion.
    pub congestion: InteriorPointScalar,
    /// Whether this arc enters the source or leaves the sink, and so is ignored.
    pub normalized_away: bool,
    /// Final integral original flow after the `b`-matching recovery.
    pub final_flow: Option<u64>,
}

/// Exact bounded work counters.
#[derive(Clone, Copy, Debug, Eq, PartialEq, Structural)]
pub struct InteriorPointMaxFlowMetrics {
    /// Original cuts enumerated to install the exact target value.
    pub enumerated_cuts: u64,
    /// Vertices in the perfect `b`-matching reduction.
    pub b_matching_nodes: u64,
    /// Edges in the perfect `b`-matching reduction.
    pub b_matching_edges: u64,
    /// Vertices in the min-cost demand-flow graph.
    pub working_nodes: u64,
    /// Arcs in the min-cost demand-flow graph.
    pub working_edges: u64,
    /// Associated and centering electrical systems solved.
    pub electrical_solves: u64,
    /// Dense Gaussian-elimination pivots.
    pub elimination_pivots: u64,
    /// Completed descent steps.
    pub progress_steps: u64,
    /// Completed centering steps.
    pub centering_steps: u64,
    /// Arc scans performed by cycle cancellation and support-matching recovery.
    pub recovery_arc_scans: u64,
    /// Independent final certificate checks.
    pub certificate_checks: u64,
    /// Public state transitions.
    pub state_transitions: u64,
}

impl InteriorPointMaxFlowMetrics {
    /// Every counter at zero.
    pub open spec fn zero_spec() -> InteriorPointMaxFlowMetrics {
        InteriorPointMaxFlowMetrics {
            enumerated_cuts: 0,
            b_matching_nodes: 0,
            b_matching_edges: 0,
            working_nodes: 0,
            working_edges: 0,
            electrical_solves: 0,
            elimination_pivots: 0,
            progress_steps: 0,
            centering_steps: 0,
            recovery_arc_scans: 0,
            certificate_checks: 0,
            state_transitions: 0,
        }
    }
}

impl Default for InteriorPointMaxFlowMetrics {
    fn default() -> (r: InteriorPointMaxFlowMetrics)
        ensures
            r == InteriorPointMaxFlowMetrics::zero_spec(),
    {
        InteriorPointMaxFlowMetrics {
            enumerated_cuts: 0,
            b_matching_nodes: 0,
            b_matching_edges: 0,
            working_nodes: 0,
            working_edges: 0,
            electrical_solves: 0,
            elimination_pivots: 0,
            progress_steps: 0,
            centering_steps: 0,
            recovery_arc_scans: 0,
            certificate_checks: 0,
            state_transitions: 0,
        }
    }
}

/// Complete reversible public state.
#[derive(Clone, Debug, Eq, PartialEq)]
pub struct InteriorPointMaxFlowSnapshot {
    /// Original-node projection.
    pub nodes: Vec<InteriorPointNodeState>,
    /// Original-edge projection.
    pub edges: Vec<InteriorPointEdgeState>,
    /// Exact bounded minimum-cut value.
    pub target_value: u64,
    /// Current weighted mean complementarity.
    pub mu: InteriorPointScalar,
    /// Current primal-dual gap.
    pub duality_gap: InteriorPointScalar,
    /// Weighted centrality norm divided by `mu`.
    pub centrality: InteriorPointScalar,
    /// Latest weighted congestion four-norm.
    pub congestion_l4: InteriorPointScalar,
    /// Latest safe descent fraction.
    pub step_size: InteriorPointScalar,
    /// Latest electrical energy.
    pub electrical_energy: InteriorPointScalar,
    /// Reduction vertex count.
    pub b_matching_nodes: u64,
    /// Reduction edge count.
    pub b_matching_edges: u64,
    /// Demand-flow graph vertex count.
    pub working_nodes: u64,
    /// Demand-flow graph arc count.
    pub working_edges: u64,
    /// Active reduced arc ordinal, when one direct arc is highlighted.
    pub active_working_edge: Option<u64>,
    /// Active reduced Laplacian row during dense elimination.
    pub active_pivot_node: Option<u64>,
    /// Original nodes represented by the active reduced pivot row.
    pub active_pivot_original_nodes: Vec<NodeIndex>,
    /// Original edges whose reduction gadget touches the active pivot row.
    pub active_pivot_original_edges: Vec<EdgeId>,
    /// Source or bounded rounding stage.
    pub stage: InteriorPointMaxFlowStage,
    /// Exact work counters.
    pub metrics: InteriorPointMaxFlowMetrics,
}

/// One atomic reversible transition.
#[derive(Clone, Debug, Eq, PartialEq)]
pub struct InteriorPointMaxFlowTraceEvent {
    /// Stable event vocabulary identity.
    pub catalog_id: &'static str,
    /// State before the transition.
    pub before: InteriorPointMaxFlowSnapshot,
    /// State after the transition.
    pub after: InteriorPointMaxFlowSnapshot,
}

/// Certified bounded solver result.
#[derive(Clone, Debug, Eq, PartialEq)]
pub struct InteriorPointMaxFlowResult {
    /// Original-edge integral flows.
    pub flows: Vec<u64>,
    /// Independent maximum-flow/minimum-cut certificate.
    pub certificate: MaxFlowCertificate,
    /// Terminal public state.
    pub final_snapshot: InteriorPointMaxFlowSnapshot,
    /// Exact work counters.
    pub metrics: InteriorPointMaxFlowMetrics,
}

/// Result plus every public boundary.
#[derive(Clone, Debug, Eq, PartialEq)]
pub struct InteriorPointMaxFlowTraceResult {
    /// Same certified result as the fast profile.
    pub result: InteriorPointMaxFlowResult,
    /// Ready state.
    pub base_snapshot: InteriorPointMaxFlowSnapshot,
    /// Canonical reversible transitions.
    pub events: Vec<InteriorPointMaxFlowTraceEvent>,
    /// Terminal state, equal to `result.final_snapshot`.
    pub final_snapshot: InteriorPointMaxFlowSnapshot,
}

/// Admission, graph-contract, numerical, resource, rounding, or certificate failure.
#[derive(Clone, Copy, Debug, Eq, PartialEq, Structural)]
pub enum InteriorPointMaxFlowError {
    /// Input exceeds the deliberately small interactive band.
    AdmissionLimit,
    /// The method requires unit capacities, zero lower bounds, costs and
    /// supplies, and no self-loops.
    GraphRequirement,
    /// Terminals are missing or equal.
    InvalidTerminals,
    /// The reductions exceed their explicit bounded working band.
    ReductionLimit,
    /// Dense elimination or a positivity/centrality invariant failed.
    NumericalFailure,
    /// The deterministic central-path ceiling was reached.
    NonConvergence,
    /// No integral flow at the independently installed target was recovered.
    RoundingFailure,
    /// Independent maximum-flow/minimum-cut certification failed.
    CertificateFailure,
    /// Supplied trace differs from deterministic replay.
    TraceVerification,
}

type Ierr = InteriorPointMaxFlowError;

/// The graph is within the interactive band.
pub open spec fn ipm_admitted(g: FlowNetwork) -> bool {
    g.n() <= INTERIOR_POINT_MAX_FLOW_MAX_NODES && g.m() <= INTERIOR_POINT_MAX_FLOW_MAX_EDGES
}

/// Two distinct terminals inside the graph.
pub open spec fn ipm_terminals(g: FlowNetwork, s: NodeIndex, t: NodeIndex) -> bool {
    s@ != t@ && s@ < g.n() && t@ < g.n()
}

/// A plain unit-capacity maximum-flow instance: zero supplies, zero lower
/// bounds and costs, unit capacities, and no self-loops.
pub open spec fn ipm_unit_instance(g: FlowNetwork) -> bool {
    &&& forall|v: int| 0 <= v < g.n() ==> (#[trigger] g.node_seq()[v]).supply == 0
    &&& forall|k: int| 0 <= k < g.m() ==> {
        let e = #[trigger] g.edge_seq()[k];
        &&& e.lower == 0
        &&& e.capacity == 1
        &&& e.cost == 0
        &&& e.from@ != e.to@
    }
}

/// Everything the method asks of its input.
pub open spec fn ipm_valid(g: FlowNetwork, s: NodeIndex, t: NodeIndex) -> bool {
    ipm_admitted(g) && ipm_terminals(g, s, t) && ipm_unit_instance(g)
}

/// Checks admission, then the terminals, then the unit-capacity contract.
pub fn validate_interior_point_graph(graph: &FlowNetwork, source: NodeIndex, sink: NodeIndex) -> (r: Result<(), InteriorPointMaxFlowError>)
    ensures
        r == Err::<(), Ierr>(Ierr::AdmissionLimit) <==> !ipm_admitted(*graph),
        r == Err::<(), Ierr>(Ierr::InvalidTerminals) <==> ipm_admitted(*graph) && !ipm_terminals(*graph, source, sink),
        r == Err::<(), Ierr>(Ierr::GraphRequirement) <==> ipm_admitted(*graph) && ipm_terminals(*graph, source, sink) && !ipm_unit_instance(*graph),
        r is Ok <==> ipm_valid(*graph, source, sink),
{
    let n = graph.nodes().len();
    let m = graph.edges().len();
    if n > INTERIOR_POINT_MAX_FLOW_MAX_NODES || m > INTERIOR_POINT_MAX_FLOW_MAX_EDGES {
        return Err(Ierr::AdmissionLimit);
    }
    let s = source.as_usize();
    let t = sink.as_usize();
    if s == t || s >= n || t >= n {
        return Err(Ierr::InvalidTerminals);
    }
    let mut v: usize = 0;
    while v < n
        invariant
            n == graph.n(),
            ipm_admitted(*graph),
            ipm_terminals(*graph, source, sink),
            v <= n,
            forall|u: int| 0 <= u < v ==> (#[trigger] graph.node_seq()[u]).supply == 0,
        decreases n - v,
    {
        if graph.nodes()[v].supply() != 0 {
            assert(graph.node_seq()[v as int].supply != 0);
            return Err(Ierr::GraphRequirement);
        }
        v = v + 1;
    }
    let mut k: usize = 0;
    while k < m
        invariant
            m == graph.m(),
            ipm_admitted(*graph),
            ipm_terminals(*graph, source, sink),
            forall|u: int| 0 <= u < graph.n() ==> (#[trigger] graph.node_seq()[u]).supply == 0,
            k <= m,
            forall|j: int| 0 <= j < k ==> {
                let e = #[trigger] graph.edge_seq()[j];
                &&& e.lower == 0
                &&& e.capacity == 1
                &&& e.cost == 0
                &&& e.from@ != e.to@
            },
        decreases m - k,
    {
        let e = &graph.edges()[k];
        if e.lower() != 0 || e.capacity() != 1 || e.cost() != 0 || e.from().as_usize() == e.to().as_usize() {
            assert(graph.edge_seq()[k as int] == *e);
            return Err(Ierr::GraphRequirement);
        }
        k = k + 1;
    }
    Ok(())
}

/// Bit `i` of `mask`.
pub open spec fn bit_of(mask: nat, i: nat) -> bool {
    (mask / pow2(i)) % 2 == 1
}

/// Position of a non-terminal node among the non-terminal nodes.
pub open spec fn free_rank(s: int, t: int, v: int) -> int {
    v - (if s < v { 1int } else { 0int }) - (if t < v { 1int } else { 0int })
}

/// The source side that `mask` selects: the source, and each non-terminal
/// node whose rank is a set bit of `mask`.
pub open spec fn mask_side(n: nat, s: int, t: int, mask: nat) -> Seq<bool> {
    Seq::new(n, |v: int| v == s || (v != t && bit_of(mask, free_rank(s, t, v) as nat)))
}

pub(crate) proof fn lemma_free_rank_injective(n: int, s: int, t: int, u: int, w: int)
    requires
        0 <= s < n,
        0 <= t < n,
        s != t,
        0 <= u < n,
        0 <= w < n,
        u != s && u != t,
        w != s && w != t,
        free_rank(s, t, u) == free_rank(s, t, w),
    ensures
        u == w,
{
}

fn mask_bit(mask: u64, b: u64) -> (r: bool)
    requires
        b < 64,
    ensures
        r == bit_of(mask as nat, b as nat),
{
    proof {
        assert(((mask & (1u64 << b)) != 0u64) == (((mask >> b) % 2u64) == 1u64)) by (bit_vector)
            requires
                b < 64u64,
        ;
        vstd::bits::lemma_u64_shr_is_div(mask, b);
    }
    mask & (1u64 << b) != 0
}

/// Finds a minimum `s`-`t` cut by inspecting every subset of the non-terminal
/// nodes, in increasing mask order; the first minimal cut is kept.
///
/// Returns the cut's capacity, its source side, and the number of cuts
/// inspected.
pub fn enumerate_min_cut(graph: &FlowNetwork, source: NodeIndex, sink: NodeIndex) -> (r: (u64, Vec<bool>, u64))
    requires
        ipm_valid(*graph, source, sink),
    ensures
        is_st_cut(*graph, r.1@, source@ as int, sink@ as int),
        r.0 == cut_capacity(*graph, r.1@),
        exists|w: nat| #![trigger mask_side(graph.n(), source@ as int, sink@ as int, w)]
            w < pow2((graph.n() - 2) as nat) && r.1@ == mask_side(graph.n(), source@ as int, sink@ as int, w)
            && forall|x: nat| x < w ==> r.0 < #[trigger] cut_capacity(*graph, mask_side(graph.n(), source@ as int, sink@ as int, x)),
        forall|w: nat| w < pow2((graph.n() - 2) as nat) ==> r.0 <= #[trigger] cut_capacity(*graph, mask_side(graph.n(), source@ as int, sink@ as int, w)),
        r.2 == pow2((graph.n() - 2) as nat),
{
    proof {
        use_type_invariant(graph);
    }
    let n = graph.nodes().len();
    let m = graph.edges().len();
    let s = source.as_usize();
    let t = sink.as_usize();
    let ghost si = s as int;
    let ghost ti = t as int;
    let mut free: Vec<usize> = Vec::new();
    let mut v: usize = 0;
    while v < n
        invariant
            n == graph.n(),
            n <= INTERIOR_POINT_MAX_FLOW_MAX_NODES,
            s < n,
            t < n,
            s != t,
            si == s as int,
            ti == t as int,
            v <= n,
            free@.len() == free_rank(si, ti, v as int),
            forall|i: int| 0 <= i < free@.len() ==> {
                let u = #[trigger] free@[i];
                &&& u < v
                &&& u != s
                &&& u != t
                &&& free_rank(si, ti, u as int) == i
            },
        decreases n - v,
    {
        if v != s && v != t {
            free.push(v);
        }
        v = v + 1;
    }
    let k = free.len();
    assert(k == n - 2);
    proof {
        vstd::arithmetic::power2::lemma2_to64();
        assert(pow2(k as nat) <= 64) by {
            if k < 6 {
                vstd::arithmetic::power2::lemma_pow2_strictly_increases(k as nat, 6);
            }
        }
        vstd::bits::lemma_u64_shl_is_mul(1u64, k as u64);
    }
    let masks: u64 = 1u64 << (k as u64);
    assert(masks == pow2(k as nat));
    let mut best: u64 = u64::MAX;
    let mut best_side: Vec<bool> = vec![false; n];
    let ghost mut best_mask: nat = 0;
    let mut count: u64 = 0;
    let mut mask: u64 = 0;
    while mask < masks
        invariant
            n == graph.n(),
            m == graph.m(),
            m <= INTERIOR_POINT_MAX_FLOW_MAX_EDGES,
            graph.wf(),
            ipm_unit_instance(*graph),
            s == source@,
            t == sink@,
            s < n,
            t < n,
            s != t,
            si == s as int,
            ti == t as int,
            k == free@.len(),
            k == n - 2,
            masks == pow2(k as nat),
            masks <= 64,
            forall|i: int| 0 <= i < free@.len() ==> {
                let u = #[trigger] free@[i];
                &&& u < n
                &&& u != s
                &&& u != t
                &&& free_rank(si, ti, u as int) == i
            },
            n <= INTERIOR_POINT_MAX_FLOW_MAX_NODES,
            mask <= masks,
            count == mask,
            mask == 0 ==> best == u64::MAX,
            best_side@.len() == n,
            mask > 0 ==> best == cut_capacity(*graph, best_side@),
            mask > 0 ==> best_mask < masks && best_side@ == mask_side(n as nat, si, ti, best_mask),
            forall|w: nat| w < mask ==> best <= #[trigger] cut_capacity(*graph, mask_side(n as nat, si, ti, w)),
            mask > 0 ==> forall|w: nat| w < best_mask ==> best < #[trigger] cut_capacity(*graph, mask_side(n as nat, si, ti, w)),
        decreases masks - mask,
    {
        let mut side: Vec<bool> = vec![false; n];
        side.set(s, true);
        proof {
            assert forall|u: int| 0 <= u < n implies #[trigger] side@[u] == (u == si || (u != ti && free_rank(si, ti, u) < 0 && bit_of(mask as nat, free_rank(si, ti, u) as nat))) by {
                if u != si && u != ti {
                    assert(free_rank(si, ti, u) >= 0);
                }
            }
        }
        let mut b: usize = 0;
        while b < k
            invariant
                n == graph.n(),
                s < n,
                t < n,
                s != t,
                si == s as int,
                ti == t as int,
                n <= INTERIOR_POINT_MAX_FLOW_MAX_NODES,
                k == free@.len(),
                k == n - 2,
                b <= k,
                side@.len() == n,
                forall|i: int| 0 <= i < free@.len() ==> {
                    let u = #[trigger] free@[i];
                    &&& u < n
                    &&& u != s
                    &&& u != t
                    &&& free_rank(si, ti, u as int) == i
                },
                forall|u: int| 0 <= u < n ==> #[trigger] side@[u] == (u == si || (u != ti && free_rank(si, ti, u) < b && bit_of(mask as nat, free_rank(si, ti, u) as nat))),
            decreases k - b,
        {
            let node = free[b];
            let bit = mask_bit(mask, b as u64);
            side.set(node, bit);
            proof {
                assert forall|u: int| 0 <= u < n implies #[trigger] side@[u] == (u == si || (u != ti && free_rank(si, ti, u) < b + 1 && bit_of(mask as nat, free_rank(si, ti, u) as nat))) by {
                    if u != node && u != si && u != ti && free_rank(si, ti, u) == b {
                        lemma_free_rank_injective(n as int, si, ti, u, node as int);
                    }
                }
            }
            b = b + 1;
        }
        proof {
            assert(side@ =~= mask_side(n as nat, si, ti, mask as nat)) by {
                assert forall|u: int| 0 <= u < n implies #[trigger] side@[u] == mask_side(n as nat, si, ti, mask as nat)[u] by {
                    if u != si && u != ti {
                        assert(free_rank(si, ti, u) < k);
                    }
                }
            }
        }
        let mut cut: u64 = 0;
        let mut j: usize = 0;
        while j < m
            invariant
                n == graph.n(),
                m == graph.m(),
                m <= INTERIOR_POINT_MAX_FLOW_MAX_EDGES,
                graph.wf(),
                ipm_unit_instance(*graph),
                side@.len() == n,
                j <= m,
                cut <= j,
                cut == cut_prefix(graph.edge_seq(), side@, j as int),
            decreases m - j,
        {
            let e = &graph.edges()[j];
            assert(graph.edge_seq()[j as int] == *e);
            if side[e.from().as_usize()] && !side[e.to().as_usize()] {
                cut = cut + e.capacity();
            }
            j = j + 1;
        }
        assert(cut == cut_capacity(*graph, side@));
        count = count + 1;
        proof {
            if mask == 0 {
                assert(cut < best);
            }
        }
        if cut < best {
            best = cut;
            best_side = side;
            proof {
                best_mask = mask as nat;
            }
        }
        mask = mask + 1;
    }
    proof {
        assert(mask > 0);
        assert(best_side@ == mask_side(n as nat, si, ti, best_mask));
        assert(best_side@[si]);
        assert(!best_side@[ti]);
        assert(forall|x: nat| x < best_mask ==> best < #[trigger] cut_capacity(*graph, mask_side(n as nat, si, ti, x)));
    }
    (best, best_side, count)
}

/// Which side of the reduction a vertex stands for.
#[derive(Clone, Copy, Debug, Eq, PartialEq, Structural)]
pub enum BipartiteRole {
    /// Left copy of an original edge.
    OriginalP(usize),
    /// Right copy of an original edge.
    OriginalQ(usize),
    /// Left copy of a non-terminal node.
    InternalP(usize),
    /// Right copy of a non-terminal node.
    InternalQ(usize),
    /// Right vertex of the source.
    SourceQ(usize),
    /// Left vertex of the sink.
    SinkP(usize),
}

/// A reduction vertex with its degree demand.
#[derive(Clone, Copy, Debug, Eq, PartialEq, Structural)]
pub struct BipartiteNode {
    /// Required matching degree.
    pub demand: u64,
    /// What the vertex stands for.
    pub role: BipartiteRole,
}

/// A reduction edge between left vertex `p` and right vertex `q`.
#[derive(Clone, Copy, Debug, Eq, PartialEq, Structural)]
pub struct BipartiteEdge {
    /// Left endpoint.
    pub p: usize,
    /// Right endpoint.
    pub q: usize,
    /// The original edge whose direct arc this is, if any.
    pub original_direct: Option<usize>,
}

/// The perfect `b`-matching instance of a unit-capacity flow instance.
#[derive(Clone, Debug, Eq, PartialEq)]
pub struct BipartiteReduction {
    /// Left vertices.
    pub p: Vec<BipartiteNode>,
    /// Right vertices.
    pub q: Vec<BipartiteNode>,
    /// Edges.
    pub edges: Vec<BipartiteEdge>,
    /// For each original edge, its direct reduction edge.
    pub original_direct_edge: Vec<Option<usize>>,
}

/// Edge `k` neither enters the source nor leaves the sink.
pub open spec fn relevant_edge(g: FlowNetwork, s: int, t: int, k: int) -> bool {
    g.edge_seq()[k].to@ != s && g.edge_seq()[k].from@ != t
}

/// Relevant edges among the first `j`.
pub open spec fn relevant_before(g: FlowNetwork, s: int, t: int, j: int) -> nat
    decreases j,
{
    if j <= 0 {
        0
    } else {
        relevant_before(g, s, t, j - 1) + if relevant_edge(g, s, t, j - 1) { 1nat } else { 0nat }
    }
}

/// Relevant edges among the first `j` that enter `v`.
pub open spec fn relevant_into(g: FlowNetwork, s: int, t: int, v: int, j: int) -> nat
    decreases j,
{
    if j <= 0 {
        0
    } else {
        relevant_into(g, s, t, v, j - 1) + if relevant_edge(g, s, t, j - 1) && g.edge_seq()[j - 1].to@ == v { 1nat } else { 0nat }
    }
}

/// Relevant edges among the first `j` that leave `v`.
pub open spec fn relevant_out_of(g: FlowNetwork, s: int, t: int, v: int, j: int) -> nat
    decreases j,
{
    if j <= 0 {
        0
    } else {
        relevant_out_of(g, s, t, v, j - 1) + if relevant_edge(g, s, t, j - 1) && g.edge_seq()[j - 1].from@ == v { 1nat } else { 0nat }
    }
}

/// Relevant in-degrees of the non-terminal nodes below `j`, summed.
pub open spec fn free_in_total(g: FlowNetwork, s: int, t: int, j: int) -> nat
    decreases j,
{
    if j <= 0 {
        0
    } else {
        free_in_total(g, s, t, j - 1) + if j - 1 != s && j - 1 != t { relevant_into(g, s, t, j - 1, g.m() as int) } else { 0nat }
    }
}

/// Relevant out-degrees of the non-terminal nodes below `j`, summed.
pub open spec fn free_out_total(g: FlowNetwork, s: int, t: int, j: int) -> nat
    decreases j,
{
    if j <= 0 {
        0
    } else {
        free_out_total(g, s, t, j - 1) + if j - 1 != s && j - 1 != t { relevant_out_of(g, s, t, j - 1, g.m() as int) } else { 0nat }
    }
}

/// When the reduction for `target` is refused: the source sends, or the
/// sink receives, fewer than `target` relevant edges, or the two sides'
/// demands differ.
pub open spec fn reduction_refused(g: FlowNetwork, s: int, t: int, target: nat) -> bool {
    let m = g.m() as int;
    let r = relevant_before(g, s, t, m);
    ||| relevant_out_of(g, s, t, s, m) < target
    ||| relevant_into(g, s, t, t, m) < target
    ||| r + free_in_total(g, s, t, g.n() as int) + (relevant_into(g, s, t, t, m) - target)
        != r + free_out_total(g, s, t, g.n() as int) + (relevant_out_of(g, s, t, s, m) - target)
}

/// The exact layout of the reduction of `g` for `target`.  With `r` relevant
/// edges: the `i`-th relevant edge owns left and right vertices `i` and
/// reduction edges `3i` (direct), `3i + 1` (to its tail) and `3i + 2` (from
/// its head); a non-terminal node of rank `j` owns left and right vertices
/// `r + j` and reduction edge `3r + j`; the sink's left vertex and the
/// source's right vertex come last.
pub open spec fn reduction_layout(g: FlowNetwork, s: int, t: int, target: nat, red: BipartiteReduction) -> bool {
    let n = g.n() as int;
    let m = g.m() as int;
    let r = relevant_before(g, s, t, m) as int;
    let last = r + n - 2;
    &&& red.p@.len() == r + n - 1
    &&& red.q@.len() == r + n - 1
    &&& red.edges@.len() == 3 * r + n - 2
    &&& red.original_direct_edge@.len() == m
    &&& forall|k: int| 0 <= k < m && !relevant_edge(g, s, t, k) ==> #[trigger] red.original_direct_edge@[k] is None
    &&& forall|k: int| 0 <= k < m && relevant_edge(g, s, t, k) ==> {
        let i = relevant_before(g, s, t, k) as int;
        let e = g.edge_seq()[k];
        let tail = if e.from@ == s { last } else { r + free_rank(s, t, e.from@ as int) };
        let head = if e.to@ == t { last } else { r + free_rank(s, t, e.to@ as int) };
        &&& #[trigger] red.original_direct_edge@[k] == Some((3 * i) as usize)
        &&& red.p@[i] == (BipartiteNode { demand: 1, role: BipartiteRole::OriginalP(k as usize) })
        &&& red.q@[i] == (BipartiteNode { demand: 1, role: BipartiteRole::OriginalQ(k as usize) })
        &&& red.edges@[3 * i] == (BipartiteEdge { p: i as usize, q: i as usize, original_direct: Some(k as usize) })
        &&& red.edges@[3 * i + 1] == (BipartiteEdge { p: i as usize, q: tail as usize, original_direct: None })
        &&& red.edges@[3 * i + 2] == (BipartiteEdge { p: head as usize, q: i as usize, original_direct: None })
    }
    &&& forall|v: int| #![trigger free_rank(s, t, v)] 0 <= v < n && v != s && v != t ==> {
        let j = r + free_rank(s, t, v);
        &&& red.p@[j] == (BipartiteNode { demand: relevant_into(g, s, t, v, m) as u64, role: BipartiteRole::InternalP(v as usize) })
        &&& red.q@[j] == (BipartiteNode { demand: relevant_out_of(g, s, t, v, m) as u64, role: BipartiteRole::InternalQ(v as usize) })
        &&& red.edges@[2 * r + j] == (BipartiteEdge { p: j as usize, q: j as usize, original_direct: None })
    }
    &&& red.p@[last] == (BipartiteNode { demand: (relevant_into(g, s, t, t, m) - target) as u64, role: BipartiteRole::SinkP(t as usize) })
    &&& red.q@[last] == (BipartiteNode { demand: (relevant_out_of(g, s, t, s, m) - target) as u64, role: BipartiteRole::SourceQ(s as usize) })
}

pub(crate) proof fn lemma_relevant_before_monotone(g: FlowNetwork, s: int, t: int, a: int, b: int)
    requires
        a <= b,
    ensures
        relevant_before(g, s, t, a) <= relevant_before(g, s, t, b),
    decreases b - a,
{
    if a < b {
        lemma_relevant_before_monotone(g, s, t, a, b - 1);
    }
}

pub(crate) proof fn lemma_relevant_position(g: FlowNetwork, s: int, t: int, k1: int, k2: int)
    requires
        0 <= k1,
        0 <= k2,
        relevant_edge(g, s, t, k1),
        relevant_edge(g, s, t, k2),
        relevant_before(g, s, t, k1) == relevant_before(g, s, t, k2),
    ensures
        k1 == k2,
{
    if k1 < k2 {
        lemma_relevant_before_monotone(g, s, t, k1 + 1, k2);
    } else if k2 < k1 {
        lemma_relevant_before_monotone(g, s, t, k2 + 1, k1);
    }
}

fn count_relevant_into(graph: &FlowNetwork, s: usize, t: usize, v: usize) -> (r: u64)
    ensures
        r == relevant_into(*graph, s as int, t as int, v as int, graph.m() as int),
        r <= graph.m(),
{
    proof {
        use_type_invariant(graph);
    }
    let m = graph.edges().len();
    let mut count: u64 = 0;
    let mut k: usize = 0;
    while k < m
        invariant
            m == graph.m(),
            m <= crate::model::MAX_ELEMENTS,
            k <= m,
            count == relevant_into(*graph, s as int, t as int, v as int, k as int),
            count <= k,
        decreases m - k,
    {
        let e = &graph.edges()[k];
        assert(graph.edge_seq()[k as int] == *e);
        if e.to().as_usize() != s && e.from().as_usize() != t && e.to().as_usize() == v {
            count = count + 1;
        }
        k = k + 1;
    }
    count
}

fn count_relevant_out_of(graph: &FlowNetwork, s: usize, t: usize, v: usize) -> (r: u64)
    ensures
        r == relevant_out_of(*graph, s as int, t as int, v as int, graph.m() as int),
        r <= graph.m(),
{
    proof {
        use_type_invariant(graph);
    }
    let m = graph.edges().len();
    let mut count: u64 = 0;
    let mut k: usize = 0;
    while k < m
        invariant
            m == graph.m(),
            m <= crate::model::MAX_ELEMENTS,
            k <= m,
            count == relevant_out_of(*graph, s as int, t as int, v as int, k as int),
            count <= k,
        decreases m - k,
    {
        let e = &graph.edges()[k];
        assert(graph.edge_seq()[k as int] == *e);
        if e.to().as_usize() != s && e.from().as_usize() != t && e.from().as_usize() == v {
            count = count + 1;
        }
        k = k + 1;
    }
    count
}

/// The node or edge a role names exists in `g`.
pub open spec fn role_fits(g: FlowNetwork, role: BipartiteRole) -> bool {
    match role {
        BipartiteRole::OriginalP(e) => e < g.m(),
        BipartiteRole::OriginalQ(e) => e < g.m(),
        BipartiteRole::InternalP(v) => v < g.n(),
        BipartiteRole::InternalQ(v) => v < g.n(),
        BipartiteRole::SourceQ(v) => v < g.n(),
        BipartiteRole::SinkP(v) => v < g.n(),
    }
}

/// Every vertex has a small demand and a role naming something of `g`.
pub open spec fn vertices_fit(g: FlowNetwork, nodes: Seq<BipartiteNode>) -> bool {
    forall|i: int| 0 <= i < nodes.len() ==> (#[trigger] nodes[i]).demand <= INTERIOR_POINT_MAX_FLOW_MAX_EDGES && role_fits(g, nodes[i].role)
}

/// A reduction whose edges join existing vertices, whose roles name existing
/// nodes and edges of `g`, whose demands are small, and whose direct-edge map
/// covers every original edge.
pub open spec fn reduction_wf(g: FlowNetwork, red: BipartiteReduction) -> bool {
    &&& red.p@.len() + red.q@.len() <= INTERIOR_POINT_MAX_FLOW_MAX_WORKING_NODES
    &&& red.edges@.len() <= INTERIOR_POINT_MAX_FLOW_MAX_WORKING_EDGES
    &&& red.original_direct_edge@.len() == g.m()
    &&& forall|i: int| 0 <= i < red.edges@.len() ==> (#[trigger] red.edges@[i]).p < red.p@.len() && red.edges@[i].q < red.q@.len()
    &&& vertices_fit(g, red.p@)
    &&& vertices_fit(g, red.q@)
    &&& forall|k: int| 0 <= k < g.m() ==> (#[trigger] red.original_direct_edge@[k] matches Some(e) ==> e < red.edges@.len())
}

/// The relevant edges of `g` in increasing order.
pub open spec fn lists_relevant(g: FlowNetwork, s: int, t: int, relevant: Seq<usize>) -> bool {
    let m = g.m() as int;
    &&& relevant.len() == relevant_before(g, s, t, m)
    &&& forall|j: int| 0 <= j < relevant.len() ==> {
        let x = #[trigger] relevant[j];
        &&& x < m
        &&& relevant_edge(g, s, t, x as int)
        &&& relevant_before(g, s, t, x as int) == j
    }
    &&& forall|x: int| 0 <= x < m && relevant_edge(g, s, t, x) ==> {
        &&& relevant_before(g, s, t, x) < relevant.len()
        &&& relevant[relevant_before(g, s, t, x) as int] == x
    }
}

fn relevant_edges(graph: &FlowNetwork, s: usize, t: usize) -> (relevant: Vec<usize>)
    ensures
        lists_relevant(*graph, s as int, t as int, relevant@),
        relevant@.len() <= graph.m(),
{
    proof {
        use_type_invariant(graph);
    }
    let m = graph.edges().len();
    let ghost si = s as int;
    let ghost ti = t as int;
    let ghost g = *graph;
    let mut relevant: Vec<usize> = Vec::new();
    let mut k: usize = 0;
    while k < m
        invariant
            g == *graph,
            m == g.m(),
            si == s as int,
            ti == t as int,
            k <= m,
            relevant@.len() == relevant_before(g, si, ti, k as int),
            relevant@.len() <= k,
            forall|i: int| 0 <= i < relevant@.len() ==> {
                let x = #[trigger] relevant@[i];
                &&& x < k
                &&& relevant_edge(g, si, ti, x as int)
                &&& relevant_before(g, si, ti, x as int) == i
            },
        decreases m - k,
    {
        let e = &graph.edges()[k];
        assert(graph.edge_seq()[k as int] == *e);
        if e.to().as_usize() != s && e.from().as_usize() != t {
            relevant.push(k);
        }
        k = k + 1;
    }
    proof {
        assert forall|x: int| 0 <= x < m && relevant_edge(g, si, ti, x) implies {
            &&& relevant_before(g, si, ti, x) < relevant@.len()
            &&& relevant@[relevant_before(g, si, ti, x) as int] == x
        } by {
            lemma_relevant_before_monotone(g, si, ti, x + 1, m as int);
            let y = relevant@[relevant_before(g, si, ti, x) as int];
            lemma_relevant_position(g, si, ti, x, y as int);
        }
    }
    relevant
}

/// Vertices owned by relevant edges and by non-terminal nodes, with their
/// demands, as `reduction_layout` places them.
pub open spec fn vertex_layout(g: FlowNetwork, s: int, t: int, relevant: Seq<usize>, p: Seq<BipartiteNode>, q: Seq<BipartiteNode>, p_vertex: Seq<usize>, q_vertex: Seq<usize>) -> bool {
    let r = relevant.len() as int;
    let n = g.n() as int;
    let m = g.m() as int;
    &&& p_vertex.len() == n
    &&& q_vertex.len() == n
    &&& forall|j: int| 0 <= j < r ==> #[trigger] p[j] == (BipartiteNode { demand: 1, role: BipartiteRole::OriginalP(relevant[j]) })
    &&& forall|j: int| 0 <= j < r ==> #[trigger] q[j] == (BipartiteNode { demand: 1, role: BipartiteRole::OriginalQ(relevant[j]) })
    &&& forall|u: int| #![trigger free_rank(s, t, u)] 0 <= u < n && u != s && u != t ==> {
        let j = r + free_rank(s, t, u);
        &&& p[j] == (BipartiteNode { demand: relevant_into(g, s, t, u, m) as u64, role: BipartiteRole::InternalP(u as usize) })
        &&& q[j] == (BipartiteNode { demand: relevant_out_of(g, s, t, u, m) as u64, role: BipartiteRole::InternalQ(u as usize) })
        &&& p_vertex[u] == j
        &&& q_vertex[u] == j
    }
}

fn reduction_vertices(graph: &FlowNetwork, source: NodeIndex, sink: NodeIndex, relevant: &Vec<usize>) -> (r: (Vec<BipartiteNode>, Vec<BipartiteNode>, Vec<usize>, Vec<usize>, u64, u64))
    requires
        ipm_valid(*graph, source, sink),
        lists_relevant(*graph, source@ as int, sink@ as int, relevant@),
        relevant@.len() <= graph.m(),
    ensures
        r.0@.len() == relevant@.len() + graph.n() - 2,
        r.1@.len() == relevant@.len() + graph.n() - 2,
        vertex_layout(*graph, source@ as int, sink@ as int, relevant@, r.0@, r.1@, r.2@, r.3@),
        r.4 == relevant@.len() + free_in_total(*graph, source@ as int, sink@ as int, graph.n() as int),
        r.5 == relevant@.len() + free_out_total(*graph, source@ as int, sink@ as int, graph.n() as int),
        r.4 <= 100,
        r.5 <= 100,
        vertices_fit(*graph, r.0@),
        vertices_fit(*graph, r.1@),
{
    let n = graph.nodes().len();
    let s = source.as_usize();
    let t = sink.as_usize();
    let ghost si = s as int;
    let ghost ti = t as int;
    let ghost g = *graph;
    let r = relevant.len();
    let ghost ri = r as int;
    let mut p: Vec<BipartiteNode> = Vec::new();
    let mut q: Vec<BipartiteNode> = Vec::new();
    let mut i: usize = 0;
    while i < r
        invariant
            r == relevant@.len(),
            i <= r,
            p@.len() == i,
            q@.len() == i,
            forall|j: int| 0 <= j < i ==> #[trigger] p@[j] == (BipartiteNode { demand: 1, role: BipartiteRole::OriginalP(relevant@[j]) }),
            forall|j: int| 0 <= j < i ==> #[trigger] q@[j] == (BipartiteNode { demand: 1, role: BipartiteRole::OriginalQ(relevant@[j]) }),
            lists_relevant(*graph, source@ as int, sink@ as int, relevant@),
            vertices_fit(*graph, p@),
            vertices_fit(*graph, q@),
        decreases r - i,
    {
        p.push(BipartiteNode { demand: 1, role: BipartiteRole::OriginalP(relevant[i]) });
        q.push(BipartiteNode { demand: 1, role: BipartiteRole::OriginalQ(relevant[i]) });
        i = i + 1;
    }
    let mut p_vertex: Vec<usize> = vec![0; n];
    let mut q_vertex: Vec<usize> = vec![0; n];
    let mut p_total: u64 = r as u64;
    let mut q_total: u64 = r as u64;
    let mut v: usize = 0;
    while v < n
        invariant
            g == *graph,
            n == g.n(),
            ipm_valid(g, source, sink),
            s == source@,
            t == sink@,
            si == s as int,
            ti == t as int,
            r == relevant@.len(),
            ri == r as int,
            r <= g.m(),
            v <= n,
            p_vertex@.len() == n,
            q_vertex@.len() == n,
            p@.len() == r + free_rank(si, ti, v as int),
            q@.len() == r + free_rank(si, ti, v as int),
            p_total == r + free_in_total(g, si, ti, v as int),
            q_total == r + free_out_total(g, si, ti, v as int),
            p_total <= r + 10 * v,
            q_total <= r + 10 * v,
            vertices_fit(g, p@),
            vertices_fit(g, q@),
            forall|j: int| 0 <= j < r ==> #[trigger] p@[j] == (BipartiteNode { demand: 1, role: BipartiteRole::OriginalP(relevant@[j]) }),
            forall|j: int| 0 <= j < r ==> #[trigger] q@[j] == (BipartiteNode { demand: 1, role: BipartiteRole::OriginalQ(relevant@[j]) }),
            forall|u: int| #![trigger free_rank(si, ti, u)] 0 <= u < v && u != si && u != ti ==> {
                let j = ri + free_rank(si, ti, u);
                &&& p@[j] == (BipartiteNode { demand: relevant_into(g, si, ti, u, g.m() as int) as u64, role: BipartiteRole::InternalP(u as usize) })
                &&& q@[j] == (BipartiteNode { demand: relevant_out_of(g, si, ti, u, g.m() as int) as u64, role: BipartiteRole::InternalQ(u as usize) })
                &&& p_vertex@[u] == j
                &&& q_vertex@[u] == j
            },
        decreases n - v,
    {
        if v != s && v != t {
            let incoming = count_relevant_into(graph, s, t, v);
            let outgoing = count_relevant_out_of(graph, s, t, v);
            p_vertex.set(v, p.len());
            p.push(BipartiteNode { demand: incoming, role: BipartiteRole::InternalP(v) });
            q_vertex.set(v, q.len());
            q.push(BipartiteNode { demand: outgoing, role: BipartiteRole::InternalQ(v) });
            p_total = p_total + incoming;
            q_total = q_total + outgoing;
        }
        proof {
            assert forall|u: int| #![trigger free_rank(si, ti, u)] 0 <= u < v + 1 && u != si && u != ti implies {
                let j = ri + free_rank(si, ti, u);
                &&& p@[j] == (BipartiteNode { demand: relevant_into(g, si, ti, u, g.m() as int) as u64, role: BipartiteRole::InternalP(u as usize) })
                &&& q@[j] == (BipartiteNode { demand: relevant_out_of(g, si, ti, u, g.m() as int) as u64, role: BipartiteRole::InternalQ(u as usize) })
                &&& p_vertex@[u] == j
                &&& q_vertex@[u] == j
            } by {
                if u < v {
                    assert(free_rank(si, ti, u) < free_rank(si, ti, v as int));
                }
            }
        }
        v = v + 1;
    }
    (p, q, p_vertex, q_vertex, p_total, q_total)
}

/// Reduction edges owned by relevant edges and by non-terminal nodes, as
/// `reduction_layout` places them.
pub open spec fn edge_layout(g: FlowNetwork, s: int, t: int, r: int, edges: Seq<BipartiteEdge>, direct: Seq<Option<usize>>) -> bool {
    let n = g.n() as int;
    let m = g.m() as int;
    let last = r + n - 2;
    &&& edges.len() == 3 * r + n - 2
    &&& direct.len() == m
    &&& forall|k: int| 0 <= k < m && !relevant_edge(g, s, t, k) ==> #[trigger] direct[k] is None
    &&& forall|k: int| 0 <= k < m && relevant_edge(g, s, t, k) ==> {
        let i = relevant_before(g, s, t, k) as int;
        let e = g.edge_seq()[k];
        let tail = if e.from@ == s { last } else { r + free_rank(s, t, e.from@ as int) };
        let head = if e.to@ == t { last } else { r + free_rank(s, t, e.to@ as int) };
        &&& #[trigger] direct[k] == Some((3 * i) as usize)
        &&& edges[3 * i] == (BipartiteEdge { p: i as usize, q: i as usize, original_direct: Some(k as usize) })
        &&& edges[3 * i + 1] == (BipartiteEdge { p: i as usize, q: tail as usize, original_direct: None })
        &&& edges[3 * i + 2] == (BipartiteEdge { p: head as usize, q: i as usize, original_direct: None })
    }
    &&& forall|v: int| #![trigger free_rank(s, t, v)] 0 <= v < n && v != s && v != t ==> {
        let j = r + free_rank(s, t, v);
        edges[2 * r + j] == (BipartiteEdge { p: j as usize, q: j as usize, original_direct: None })
    }
}

fn reduction_edges(graph: &FlowNetwork, source: NodeIndex, sink: NodeIndex, relevant: &Vec<usize>, p_vertex: &Vec<usize>, q_vertex: &Vec<usize>) -> (r: (Vec<BipartiteEdge>, Vec<Option<usize>>))
    requires
        ipm_valid(*graph, source, sink),
        lists_relevant(*graph, source@ as int, sink@ as int, relevant@),
        relevant@.len() <= graph.m(),
        p_vertex@.len() == graph.n(),
        q_vertex@.len() == graph.n(),
        forall|u: int| #![trigger free_rank(source@ as int, sink@ as int, u)] 0 <= u < graph.n() && u != source@ && u != sink@ ==> {
            let j = relevant@.len() + free_rank(source@ as int, sink@ as int, u);
            &&& p_vertex@[u] == j
            &&& q_vertex@[u] == j
        },
    ensures
        edge_layout(*graph, source@ as int, sink@ as int, relevant@.len() as int, r.0@, r.1@),
        forall|i: int| 0 <= i < r.0@.len() ==> (#[trigger] r.0@[i]).p < relevant@.len() + graph.n() - 1 && r.0@[i].q < relevant@.len() + graph.n() - 1,
{
    proof {
        use_type_invariant(graph);
    }
    let n = graph.nodes().len();
    let m = graph.edges().len();
    let s = source.as_usize();
    let t = sink.as_usize();
    let ghost si = s as int;
    let ghost ti = t as int;
    let ghost g = *graph;
    let r = relevant.len();
    let ghost ri = r as int;
    let last = r + n - 2;
    let mut edges: Vec<BipartiteEdge> = Vec::new();
    let mut direct: Vec<Option<usize>> = vec![None; m];
    let mut i: usize = 0;
    while i < r
        invariant
            g == *graph,
            n == g.n(),
            m == g.m(),
            ipm_valid(g, source, sink),
            g.wf(),
            s == source@,
            t == sink@,
            si == s as int,
            ti == t as int,
            r == relevant@.len(),
            ri == r as int,
            r <= m,
            last == r + n - 2,
            lists_relevant(g, si, ti, relevant@),
            i <= r,
            direct@.len() == m,
            edges@.len() == 3 * i,
            forall|j: int| 0 <= j < edges@.len() ==> (#[trigger] edges@[j]).p < r + n - 1 && edges@[j].q < r + n - 1,
            p_vertex@.len() == n,
            q_vertex@.len() == n,
            forall|u: int| #![trigger free_rank(si, ti, u)] 0 <= u < n && u != si && u != ti ==> {
                let j = ri + free_rank(si, ti, u);
                &&& p_vertex@[u] == j
                &&& q_vertex@[u] == j
            },
            forall|x: int| 0 <= x < m && !relevant_edge(g, si, ti, x) ==> #[trigger] direct@[x] is None,
            forall|x: int| 0 <= x < m && relevant_edge(g, si, ti, x) ==> {
                let j = relevant_before(g, si, ti, x) as int;
                &&& (#[trigger] direct@[x] is Some <==> j < i)
                &&& j < i ==> direct@[x] == Some((3 * j) as usize)
            },
            forall|j: int| 0 <= j < i ==> {
                let x = #[trigger] relevant@[j] as int;
                let e = g.edge_seq()[x];
                let tail = if e.from@ == si { last as int } else { ri + free_rank(si, ti, e.from@ as int) };
                let head = if e.to@ == ti { last as int } else { ri + free_rank(si, ti, e.to@ as int) };
                &&& edges@[3 * j] == (BipartiteEdge { p: j as usize, q: j as usize, original_direct: Some(x as usize) })
                &&& edges@[3 * j + 1] == (BipartiteEdge { p: j as usize, q: tail as usize, original_direct: None })
                &&& edges@[3 * j + 2] == (BipartiteEdge { p: head as usize, q: j as usize, original_direct: None })
            },
        decreases r - i,
    {
        let x = relevant[i];
        let e = &graph.edges()[x];
        assert(graph.edge_seq()[x as int] == *e);
        direct.set(x, Some(edges.len()));
        edges.push(BipartiteEdge { p: i, q: i, original_direct: Some(x) });
        let tail_q = if e.from().as_usize() == s { last } else { q_vertex[e.from().as_usize()] };
        edges.push(BipartiteEdge { p: i, q: tail_q, original_direct: None });
        let head_p = if e.to().as_usize() == t { last } else { p_vertex[e.to().as_usize()] };
        edges.push(BipartiteEdge { p: head_p, q: i, original_direct: None });
        proof {
            assert forall|y: int| 0 <= y < m && relevant_edge(g, si, ti, y) implies {
                let j = relevant_before(g, si, ti, y) as int;
                &&& (#[trigger] direct@[y] is Some <==> j < i + 1)
                &&& j < i + 1 ==> direct@[y] == Some((3 * j) as usize)
            } by {
                if y != x as int && relevant_before(g, si, ti, y) == i {
                    lemma_relevant_position(g, si, ti, y, x as int);
                }
            }
        }
        i = i + 1;
    }
    let ghost e3 = edges@;
    let mut v: usize = 0;
    while v < n
        invariant
            n == g.n(),
            e3.len() == 3 * r,
            s < n,
            t < n,
            s != t,
            si == s as int,
            ti == t as int,
            ri == r as int,
            v <= n,
            p_vertex@.len() == n,
            q_vertex@.len() == n,
            edges@.len() == 3 * r + free_rank(si, ti, v as int),
            forall|j: int| 0 <= j < edges@.len() ==> (#[trigger] edges@[j]).p < r + n - 1 && edges@[j].q < r + n - 1,
            forall|u: int| #![trigger free_rank(si, ti, u)] 0 <= u < n && u != si && u != ti ==> {
                let j = ri + free_rank(si, ti, u);
                &&& p_vertex@[u] == j
                &&& q_vertex@[u] == j
            },
            forall|j: int| 0 <= j < 3 * r ==> #[trigger] edges@[j] == e3[j],
            forall|u: int| #![trigger free_rank(si, ti, u)] 0 <= u < v && u != si && u != ti ==> {
                let j = ri + free_rank(si, ti, u);
                edges@[2 * ri + j] == (BipartiteEdge { p: j as usize, q: j as usize, original_direct: None })
            },
        decreases n - v,
    {
        if v != s && v != t {
            edges.push(BipartiteEdge { p: p_vertex[v], q: q_vertex[v], original_direct: None });
        }
        proof {
            assert forall|u: int| #![trigger free_rank(si, ti, u)] 0 <= u < v + 1 && u != si && u != ti implies {
                let j = ri + free_rank(si, ti, u);
                edges@[2 * ri + j] == (BipartiteEdge { p: j as usize, q: j as usize, original_direct: None })
            } by {
                if u < v {
                    assert(free_rank(si, ti, u) < free_rank(si, ti, v as int));
                }
            }
        }
        v = v + 1;
    }
    proof {
        assert forall|k: int| 0 <= k < m && relevant_edge(g, si, ti, k) implies {
            let i = relevant_before(g, si, ti, k) as int;
            let e = g.edge_seq()[k];
            let tail = if e.from@ == si { last as int } else { ri + free_rank(si, ti, e.from@ as int) };
            let head = if e.to@ == ti { last as int } else { ri + free_rank(si, ti, e.to@ as int) };
            &&& #[trigger] direct@[k] == Some((3 * i) as usize)
            &&& edges@[3 * i] == (BipartiteEdge { p: i as usize, q: i as usize, original_direct: Some(k as usize) })
            &&& edges@[3 * i + 1] == (BipartiteEdge { p: i as usize, q: tail as usize, original_direct: None })
            &&& edges@[3 * i + 2] == (BipartiteEdge { p: head as usize, q: i as usize, original_direct: None })
        } by {
            let i = relevant_before(g, si, ti, k) as int;
            assert(relevant@[i] == k);
            assert(0 <= 3 * i + 2 < 3 * r);
        }
    }
    (edges, direct)
}

/// Builds the perfect `b`-matching reduction of a unit-capacity instance whose
/// maximum-flow value is to be `target`.
pub fn build_bipartite_reduction(graph: &FlowNetwork, source: NodeIndex, sink: NodeIndex, target: u64) -> (r: Result<BipartiteReduction, InteriorPointMaxFlowError>)
    requires
        ipm_valid(*graph, source, sink),
    ensures
        r is Err <==> reduction_refused(*graph, source@ as int, sink@ as int, target as nat),
        r is Err ==> r == Err::<BipartiteReduction, Ierr>(Ierr::ReductionLimit),
        r matches Ok(red) ==> reduction_layout(*graph, source@ as int, sink@ as int, target as nat, red),
        r matches Ok(red) ==> reduction_wf(*graph, red),
{
    let n = graph.nodes().len();
    let s = source.as_usize();
    let t = sink.as_usize();
    let relevant = relevant_edges(graph, s, t);
    let (mut p, mut q, p_vertex, q_vertex, p_total, q_total) = reduction_vertices(graph, source, sink, &relevant);
    let source_out = count_relevant_out_of(graph, s, t, s);
    if source_out < target {
        return Err(Ierr::ReductionLimit);
    }
    q.push(BipartiteNode { demand: source_out - target, role: BipartiteRole::SourceQ(s) });
    let sink_in = count_relevant_into(graph, s, t, t);
    if sink_in < target {
        return Err(Ierr::ReductionLimit);
    }
    p.push(BipartiteNode { demand: sink_in - target, role: BipartiteRole::SinkP(t) });
    let (edges, direct) = reduction_edges(graph, source, sink, &relevant, &p_vertex, &q_vertex);
    let p_sum = p_total + (sink_in - target);
    let q_sum = q_total + (source_out - target);
    if p_sum != q_sum || p.len() + q.len() > INTERIOR_POINT_MAX_FLOW_MAX_WORKING_NODES
        || edges.len() > INTERIOR_POINT_MAX_FLOW_MAX_WORKING_EDGES {
        return Err(Ierr::ReductionLimit);
    }
    let red = BipartiteReduction { p, q, edges, original_direct_edge: direct };
    proof {
        let g = *graph;
        let si = s as int;
        let ti = t as int;
        let ri = relevant@.len() as int;
        assert forall|v: int| #![trigger free_rank(si, ti, v)] 0 <= v < n && v != si && v != ti implies
            red.p@[ri + free_rank(si, ti, v)] == (BipartiteNode { demand: relevant_into(g, si, ti, v, g.m() as int) as u64, role: BipartiteRole::InternalP(v as usize) })
            && red.q@[ri + free_rank(si, ti, v)] == (BipartiteNode { demand: relevant_out_of(g, si, ti, v, g.m() as int) as u64, role: BipartiteRole::InternalQ(v as usize) }) by {
            assert(free_rank(si, ti, v) < n - 2);
        }
        assert forall|k: int| 0 <= k < g.m() && relevant_edge(g, si, ti, k) implies
            red.p@[relevant_before(g, si, ti, k) as int] == (BipartiteNode { demand: 1, role: BipartiteRole::OriginalP(k as usize) })
            && red.q@[relevant_before(g, si, ti, k) as int] == (BipartiteNode { demand: 1, role: BipartiteRole::OriginalQ(k as usize) }) by {
            assert(relevant@[relevant_before(g, si, ti, k) as int] == k);
        }
    }
    Ok(red)
}

/// One arc of the demand-flow graph with its initial integral flow.
#[derive(Clone, Copy, Debug, Eq, PartialEq, Structural)]
pub struct WorkingArcSkeleton {
    /// Tail vertex.
    pub from: usize,
    /// Head vertex.
    pub to: usize,
    /// Flow at the zero-centered starting point.
    pub initial_flow: u64,
}

/// The uncapacitated demand-flow graph of a `b`-matching reduction: left
/// vertices, then right vertices, then one hub; each reduction edge becomes
/// as many parallel unit arcs as its thinner endpoint demands, and each
/// vertex gets a pair of hub arcs whose flows balance its demand.
#[derive(Clone, Debug, Eq, PartialEq)]
pub struct WorkingSkeleton {
    /// Vertex count, hub included.
    pub node_count: usize,
    /// The hub vertex.
    pub hub: usize,
    /// Arcs: edge copies first, then the hub pairs.
    pub arcs: Vec<WorkingArcSkeleton>,
    /// For each reduction edge, the arcs that copy it.
    pub reduction_edge_arcs: Vec<Vec<usize>>,
    /// For each original edge, the last copy of its direct reduction edge.
    pub original_direct_arc: Vec<Option<usize>>,
    /// For each original node, the working vertices that stand for it.
    pub original_node_projection: Vec<Vec<usize>>,
    /// The role of each working vertex; the hub has none.
    pub node_roles: Vec<Option<BipartiteRole>>,
}

/// Parallel copies of reduction edge `e`.
pub open spec fn thickness(red: BipartiteReduction, e: int) -> nat {
    let p = red.p@[red.edges@[e].p as int].demand;
    let q = red.q@[red.edges@[e].q as int].demand;
    (if p <= q { p } else { q }) as nat
}

/// Some reduction edge among the first `upto`, with at least one copy,
/// is the direct edge of original edge `k`.
pub open spec fn directs(red: BipartiteReduction, k: int, upto: int) -> bool {
    exists|f: int| 0 <= f < upto && (#[trigger] red.edges@[f]).original_direct == Some(k as usize) && thickness(red, f) > 0
}

/// Copies among the first `j` reduction edges.
pub open spec fn copies_before(red: BipartiteReduction, j: int) -> nat
    decreases j,
{
    if j <= 0 { 0 } else { copies_before(red, j - 1) + thickness(red, j - 1) }
}

/// Copies among the first `j` reduction edges that leave left vertex `i`.
pub open spec fn copies_at_p(red: BipartiteReduction, i: int, j: int) -> nat
    decreases j,
{
    if j <= 0 { 0 } else { copies_at_p(red, i, j - 1) + if red.edges@[j - 1].p == i { thickness(red, j - 1) } else { 0 } }
}

/// Copies among the first `j` reduction edges that enter right vertex `i`.
pub open spec fn copies_at_q(red: BipartiteReduction, i: int, j: int) -> nat
    decreases j,
{
    if j <= 0 { 0 } else { copies_at_q(red, i, j - 1) + if red.edges@[j - 1].q == i { thickness(red, j - 1) } else { 0 } }
}

/// Flows of a vertex's two hub arcs (towards the demand side first): the
/// pair that leaves the vertex exactly balanced against its demand.
pub open spec fn hub_pair(copies: nat, demand: nat) -> (nat, nat) {
    if copies >= demand { (1, (copies - demand) as nat + 1) } else { ((demand - copies) as nat + 1, 1) }
}

/// The two hub arcs of left vertex `i`.
pub open spec fn p_hub_arcs(red: BipartiteReduction, i: int, hub: usize) -> (WorkingArcSkeleton, WorkingArcSkeleton) {
    let pair = hub_pair(copies_at_p(red, i, red.edges@.len() as int), red.p@[i].demand as nat);
    (
        WorkingArcSkeleton { from: i as usize, to: hub, initial_flow: pair.0 as u64 },
        WorkingArcSkeleton { from: hub, to: i as usize, initial_flow: pair.1 as u64 },
    )
}

/// The two hub arcs of right vertex `j`, which is working vertex `pc + j`.
pub open spec fn q_hub_arcs(red: BipartiteReduction, j: int, hub: usize) -> (WorkingArcSkeleton, WorkingArcSkeleton) {
    let pc = red.p@.len() as int;
    let pair = hub_pair(copies_at_q(red, j, red.edges@.len() as int), red.q@[j].demand as nat);
    (
        WorkingArcSkeleton { from: hub, to: (pc + j) as usize, initial_flow: pair.0 as u64 },
        WorkingArcSkeleton { from: (pc + j) as usize, to: hub, initial_flow: pair.1 as u64 },
    )
}

/// What a published skeleton is.
pub open spec fn skeleton_layout(g: FlowNetwork, red: BipartiteReduction, w: WorkingSkeleton) -> bool {
    let pc = red.p@.len() as int;
    let qc = red.q@.len() as int;
    let d = copies_before(red, red.edges@.len() as int) as int;
    &&& w.hub == pc + qc
    &&& w.node_count == pc + qc + 1
    &&& w.arcs@.len() == d + 2 * (pc + qc)
    &&& w.arcs@.len() <= INTERIOR_POINT_MAX_FLOW_MAX_WORKING_EDGES
    &&& w.node_count <= INTERIOR_POINT_MAX_FLOW_MAX_WORKING_NODES
    &&& w.reduction_edge_arcs@.len() == red.edges@.len()
    &&& forall|e: int| 0 <= e < red.edges@.len() ==> {
        let copies = #[trigger] w.reduction_edge_arcs@[e]@;
        &&& copies.len() == thickness(red, e)
        &&& forall|c: int| 0 <= c < copies.len() ==> {
            &&& copies[c] == copies_before(red, e) + c
            &&& w.arcs@[copies[c] as int] == (WorkingArcSkeleton { from: red.edges@[e].p, to: (pc + red.edges@[e].q) as usize, initial_flow: 1 })
        }
    }
    &&& forall|i: int| 0 <= i < pc ==> #[trigger] p_hub_arcs(red, i, w.hub) == (w.arcs@[d + 2 * i], w.arcs@[d + 2 * i + 1])
    &&& forall|j: int| 0 <= j < qc ==> #[trigger] q_hub_arcs(red, j, w.hub) == (w.arcs@[d + 2 * pc + 2 * j], w.arcs@[d + 2 * pc + 2 * j + 1])
    &&& w.original_direct_arc@.len() == g.m()
    &&& forall|k: int| 0 <= k < g.m() ==> (#[trigger] w.original_direct_arc@[k] is Some <==> red.original_direct_edge@[k] is Some)
    &&& forall|k: int| 0 <= k < g.m() ==> (#[trigger] w.original_direct_arc@[k] matches Some(a) ==> a < d)
    &&& w.original_node_projection@.len() == g.n()
    &&& forall|v: int, c: int| 0 <= v < g.n() && 0 <= c < w.original_node_projection@[v]@.len() ==> #[trigger] w.original_node_projection@[v]@[c] < w.hub
    &&& w.node_roles@.len() == w.node_count
    &&& forall|i: int| 0 <= i < pc ==> #[trigger] w.node_roles@[i] == Some(red.p@[i].role)
    &&& forall|j: int| 0 <= j < qc ==> #[trigger] w.node_roles@[pc + j] == Some(red.q@[j].role)
    &&& w.node_roles@[pc + qc] is None
}

fn copy_edge_arcs(graph: &FlowNetwork, red: &BipartiteReduction) -> (r: (Vec<WorkingArcSkeleton>, Vec<Vec<usize>>, Vec<Option<usize>>, Vec<u64>, Vec<u64>))
    requires
        reduction_wf(*graph, *red),
    ensures
        r.0@.len() == copies_before(*red, red.edges@.len() as int),
        r.0@.len() <= 10 * red.edges@.len(),
        r.1@.len() == red.edges@.len(),
        forall|e: int| 0 <= e < red.edges@.len() ==> {
            let copies = #[trigger] r.1@[e]@;
            &&& copies.len() == thickness(*red, e)
            &&& forall|c: int| 0 <= c < copies.len() ==> {
                &&& copies[c] == copies_before(*red, e) + c
                &&& r.0@[copies[c] as int] == (WorkingArcSkeleton { from: red.edges@[e].p, to: (red.p@.len() + red.edges@[e].q) as usize, initial_flow: 1 })
            }
        },
        r.2@.len() == graph.m(),
        forall|k: int| 0 <= k < graph.m() ==> (#[trigger] r.2@[k] matches Some(a) ==> a < r.0@.len()),
        forall|k: int| 0 <= k < graph.m() ==> ((#[trigger] r.2@[k]) is Some <==> directs(*red, k, red.edges@.len() as int)),
        r.3@.len() == red.p@.len(),
        r.4@.len() == red.q@.len(),
        forall|i: int| 0 <= i < red.p@.len() ==> #[trigger] r.3@[i] == copies_at_p(*red, i, red.edges@.len() as int),
        forall|i: int| 0 <= i < red.q@.len() ==> #[trigger] r.4@[i] == copies_at_q(*red, i, red.edges@.len() as int),
        forall|i: int| 0 <= i < red.p@.len() ==> #[trigger] r.3@[i] <= 10 * red.edges@.len(),
        forall|i: int| 0 <= i < red.q@.len() ==> #[trigger] r.4@[i] <= 10 * red.edges@.len(),
{
    let m = graph.edges().len();
    let pc = red.p.len();
    let qc = red.q.len();
    let ec = red.edges.len();
    let mut arcs: Vec<WorkingArcSkeleton> = Vec::new();
    let mut edge_arcs: Vec<Vec<usize>> = Vec::new();
    let mut direct: Vec<Option<usize>> = vec![None; m];
    let mut p_direct: Vec<u64> = vec![0; pc];
    let mut q_direct: Vec<u64> = vec![0; qc];
    let mut e: usize = 0;
    while e < ec
        invariant
            reduction_wf(*graph, *red),
            m == graph.m(),
            pc == red.p@.len(),
            qc == red.q@.len(),
            ec == red.edges@.len(),
            e <= ec,
            arcs@.len() == copies_before(*red, e as int),
            arcs@.len() <= 10 * e,
            edge_arcs@.len() == e,
            forall|f: int| 0 <= f < e ==> {
                let copies = #[trigger] edge_arcs@[f]@;
                &&& copies.len() == thickness(*red, f)
                &&& forall|c: int| 0 <= c < copies.len() ==> {
                    &&& copies[c] == copies_before(*red, f) + c
                    &&& arcs@[copies[c] as int] == (WorkingArcSkeleton { from: red.edges@[f].p, to: (pc + red.edges@[f].q) as usize, initial_flow: 1 })
                }
            },
            direct@.len() == m,
            forall|k: int| 0 <= k < m ==> (#[trigger] direct@[k] matches Some(a) ==> a < arcs@.len()),
            forall|k: int| 0 <= k < m ==> ((#[trigger] direct@[k]) is Some <==> directs(*red, k, e as int)),
            p_direct@.len() == pc,
            q_direct@.len() == qc,
            forall|i: int| 0 <= i < pc ==> #[trigger] p_direct@[i] == copies_at_p(*red, i, e as int),
            forall|i: int| 0 <= i < qc ==> #[trigger] q_direct@[i] == copies_at_q(*red, i, e as int),
            forall|i: int| 0 <= i < pc ==> #[trigger] p_direct@[i] <= 10 * e,
            forall|i: int| 0 <= i < qc ==> #[trigger] q_direct@[i] <= 10 * e,
        decreases ec - e,
    {
        let edge = red.edges[e];
        assert(edge.p < pc && edge.q < qc);
        let pd = red.p[edge.p].demand;
        let qd = red.q[edge.q].demand;
        let thick = if pd <= qd { pd } else { qd };
        assert(thick == thickness(*red, e as int));
        let ghost arcs0 = arcs@;
        let ghost p0 = p_direct@;
        let ghost q0 = q_direct@;
        let mut copies: Vec<usize> = Vec::new();
        let mut c: u64 = 0;
        while c < thick
            invariant
                m == graph.m(),
                pc == red.p@.len(),
                qc == red.q@.len(),
                edge.p < pc,
                edge.q < qc,
                pc + qc <= INTERIOR_POINT_MAX_FLOW_MAX_WORKING_NODES,
                thick <= 10,
                c <= thick,
                arcs@.len() == arcs0.len() + c,
                forall|j: int| 0 <= j < arcs0.len() ==> #[trigger] arcs@[j] == arcs0[j],
                copies@.len() == c,
                forall|j: int| 0 <= j < c ==> {
                    &&& #[trigger] copies@[j] == arcs0.len() + j
                    &&& arcs@[copies@[j] as int] == (WorkingArcSkeleton { from: edge.p, to: (pc + edge.q) as usize, initial_flow: 1 })
                },
                direct@.len() == m,
                forall|k: int| 0 <= k < m ==> (#[trigger] direct@[k] matches Some(a) ==> a < arcs@.len()),
                forall|k: int| 0 <= k < m ==> ((#[trigger] direct@[k]) is Some <==> (directs(*red, k, e as int)
                    || (c > 0 && edge.original_direct == Some(k as usize)))),
                edge == red.edges@[e as int],
                thick == thickness(*red, e as int),
                p_direct@.len() == pc,
                q_direct@.len() == qc,
                forall|i: int| 0 <= i < pc ==> #[trigger] p_direct@[i] == p0[i] + if i == edge.p { c as int } else { 0 },
                forall|i: int| 0 <= i < qc ==> #[trigger] q_direct@[i] == q0[i] + if i == edge.q { c as int } else { 0 },
                arcs0.len() <= 10 * e,
                forall|i: int| 0 <= i < pc ==> #[trigger] p0[i] <= 10 * e,
                forall|i: int| 0 <= i < qc ==> #[trigger] q0[i] <= 10 * e,
                e < ec,
                ec <= INTERIOR_POINT_MAX_FLOW_MAX_WORKING_EDGES,
            decreases thick - c,
        {
            let index = arcs.len();
            if let Some(original) = edge.original_direct {
                if original < m {
                    direct.set(original, Some(index));
                }
            }
            copies.push(index);
            arcs.push(WorkingArcSkeleton { from: edge.p, to: pc + edge.q, initial_flow: 1 });
            let a = p_direct[edge.p];
            p_direct.set(edge.p, a + 1);
            let b = q_direct[edge.q];
            q_direct.set(edge.q, b + 1);
            c = c + 1;
        }
        edge_arcs.push(copies);
        proof {
            assert forall|k: int| 0 <= k < m implies ((#[trigger] direct@[k]) is Some <==> directs(*red, k, e + 1)) by {
                if directs(*red, k, e + 1) && !directs(*red, k, e as int) {
                    let f = choose|f: int| 0 <= f < e + 1 && (#[trigger] red.edges@[f]).original_direct == Some(k as usize) && thickness(*red, f) > 0;
                    assert(f == e);
                }
                if directs(*red, k, e as int) {
                    let f = choose|f: int| 0 <= f < e && (#[trigger] red.edges@[f]).original_direct == Some(k as usize) && thickness(*red, f) > 0;
                    assert(0 <= f < e + 1 && red.edges@[f].original_direct == Some(k as usize) && thickness(*red, f) > 0);
                }
                if c > 0 && edge.original_direct == Some(k as usize) {
                    assert(red.edges@[e as int].original_direct == Some(k as usize) && thickness(*red, e as int) > 0);
                }
            }
            assert forall|f: int| 0 <= f < e + 1 implies {
                let copies = #[trigger] edge_arcs@[f]@;
                &&& copies.len() == thickness(*red, f)
                &&& forall|c: int| 0 <= c < copies.len() ==> {
                    &&& copies[c] == copies_before(*red, f) + c
                    &&& arcs@[copies[c] as int] == (WorkingArcSkeleton { from: red.edges@[f].p, to: (pc + red.edges@[f].q) as usize, initial_flow: 1 })
                }
            } by {
                if f < e {
                    let copies = edge_arcs@[f]@;
                    assert forall|c: int| 0 <= c < copies.len() implies arcs@[copies[c] as int] == (WorkingArcSkeleton { from: red.edges@[f].p, to: (pc + red.edges@[f].q) as usize, initial_flow: 1 }) by {
                        lemma_copies_before_monotone(*red, f + 1, e as int);
                        assert(copies[c] < arcs0.len());
                    }
                }
            }
        }
        e = e + 1;
    }
    (arcs, edge_arcs, direct, p_direct, q_direct)
}

proof fn lemma_copies_before_monotone(red: BipartiteReduction, a: int, b: int)
    requires
        a <= b,
    ensures
        copies_before(red, a) <= copies_before(red, b),
    decreases b - a,
{
    if a < b {
        lemma_copies_before_monotone(red, a, b - 1);
    }
}

fn hub_flows(copies: u64, demand: u64) -> (r: (u64, u64))
    requires
        copies <= 10_000,
        demand <= 10_000,
    ensures
        r.0 == hub_pair(copies as nat, demand as nat).0,
        r.1 == hub_pair(copies as nat, demand as nat).1,
{
    if copies >= demand { (1, copies - demand + 1) } else { (demand - copies + 1, 1) }
}

/// A reduction whose demand-flow graph exceeds the working band, or whose
/// recorded direct edges disagree with the edges that carry a direct copy.
pub open spec fn skeleton_refused(g: FlowNetwork, red: BipartiteReduction) -> bool {
    ||| red.p@.len() + red.q@.len() + 1 > INTERIOR_POINT_MAX_FLOW_MAX_WORKING_NODES
    ||| copies_before(red, red.edges@.len() as int) + 2 * (red.p@.len() + red.q@.len()) > INTERIOR_POINT_MAX_FLOW_MAX_WORKING_EDGES
    ||| exists|k: int| 0 <= k < g.m() && ((#[trigger] red.original_direct_edge@[k]) is Some) != directs(red, k, red.edges@.len() as int)
}

/// Builds the demand-flow graph of a reduction with its zero-centered
/// integral starting flows; refuses one that exceeds the working band or
/// whose direct arcs do not match the reduction's direct edges.
pub fn build_working_skeleton(graph: &FlowNetwork, red: &BipartiteReduction) -> (r: Result<WorkingSkeleton, InteriorPointMaxFlowError>)
    requires
        reduction_wf(*graph, *red),
    ensures
        r is Err ==> r == Err::<WorkingSkeleton, Ierr>(Ierr::ReductionLimit),
        r matches Ok(w) ==> skeleton_layout(*graph, *red, w),
        r is Err <==> skeleton_refused(*graph, *red),
{
    proof {
        use_type_invariant(graph);
    }
    let n = graph.nodes().len();
    let m = graph.edges().len();
    let pc = red.p.len();
    let qc = red.q.len();
    let hub = pc + qc;
    let node_count = hub + 1;
    let (mut arcs, reduction_edge_arcs, original_direct_arc, p_direct, q_direct) = copy_edge_arcs(graph, red);
    let d = arcs.len();
    let ghost dd = d as int;
    let ghost arcs0 = arcs@;
    let ghost ec = red.edges@.len() as int;
    let mut i: usize = 0;
    while i < pc
        invariant
            reduction_wf(*graph, *red),
            pc == red.p@.len(),
            qc == red.q@.len(),
            hub == pc + qc,
            ec == red.edges@.len(),
            d == arcs0.len(),
            dd == d as int,
            d <= 10 * ec,
            p_direct@.len() == pc,
            forall|x: int| 0 <= x < pc ==> #[trigger] p_direct@[x] == copies_at_p(*red, x, ec),
            forall|x: int| 0 <= x < pc ==> #[trigger] p_direct@[x] <= 10 * ec,
            i <= pc,
            arcs@.len() == d + 2 * i,
            forall|j: int| 0 <= j < d ==> #[trigger] arcs@[j] == arcs0[j],
            forall|x: int| 0 <= x < i ==> #[trigger] p_hub_arcs(*red, x, hub) == (arcs@[dd + 2 * x], arcs@[dd + 2 * x + 1]),
        decreases pc - i,
    {
        let (forward, backward) = hub_flows(p_direct[i], red.p[i].demand);
        arcs.push(WorkingArcSkeleton { from: i, to: hub, initial_flow: forward });
        arcs.push(WorkingArcSkeleton { from: hub, to: i, initial_flow: backward });
        i = i + 1;
    }
    let ghost arcs1 = arcs@;
    let mut j: usize = 0;
    while j < qc
        invariant
            reduction_wf(*graph, *red),
            pc == red.p@.len(),
            qc == red.q@.len(),
            hub == pc + qc,
            ec == red.edges@.len(),
            arcs1.len() == d + 2 * pc,
            dd == d as int,
            d <= 10 * ec,
            q_direct@.len() == qc,
            forall|x: int| 0 <= x < qc ==> #[trigger] q_direct@[x] == copies_at_q(*red, x, ec),
            forall|x: int| 0 <= x < qc ==> #[trigger] q_direct@[x] <= 10 * ec,
            j <= qc,
            arcs@.len() == d + 2 * pc + 2 * j,
            forall|y: int| 0 <= y < d + 2 * pc ==> #[trigger] arcs@[y] == arcs1[y],
            forall|y: int| 0 <= y < d ==> #[trigger] arcs1[y] == arcs0[y],
            forall|x: int| 0 <= x < pc ==> #[trigger] p_hub_arcs(*red, x, hub) == (arcs1[dd + 2 * x], arcs1[dd + 2 * x + 1]),
            forall|x: int| 0 <= x < j ==> #[trigger] q_hub_arcs(*red, x, hub) == (arcs@[dd + 2 * pc + 2 * x], arcs@[dd + 2 * pc + 2 * x + 1]),
        decreases qc - j,
    {
        let (forward, backward) = hub_flows(q_direct[j], red.q[j].demand);
        arcs.push(WorkingArcSkeleton { from: hub, to: pc + j, initial_flow: forward });
        arcs.push(WorkingArcSkeleton { from: pc + j, to: hub, initial_flow: backward });
        j = j + 1;
    }
    if node_count > INTERIOR_POINT_MAX_FLOW_MAX_WORKING_NODES || arcs.len() > INTERIOR_POINT_MAX_FLOW_MAX_WORKING_EDGES {
        return Err(Ierr::ReductionLimit);
    }
    let mut k: usize = 0;
    while k < m
        invariant
            m == graph.m(),
            original_direct_arc@.len() == m,
            red.original_direct_edge@.len() == m,
            k <= m,
            forall|x: int| 0 <= x < k ==> (#[trigger] original_direct_arc@[x] is Some <==> red.original_direct_edge@[x] is Some),
            forall|x: int| 0 <= x < m ==> ((#[trigger] original_direct_arc@[x]) is Some <==> directs(*red, x, red.edges@.len() as int)),
        decreases m - k,
    {
        if red.original_direct_edge[k].is_some() != original_direct_arc[k].is_some() {
            proof {
                assert((red.original_direct_edge@[k as int] is Some) != directs(*red, k as int, red.edges@.len() as int));
            }
            return Err(Ierr::ReductionLimit);
        }
        k = k + 1;
    }
    proof {
        assert(!skeleton_refused(*graph, *red)) by {
            assert forall|x: int| 0 <= x < graph.m() implies ((#[trigger] red.original_direct_edge@[x]) is Some) == directs(*red, x, red.edges@.len() as int) by {
                assert(original_direct_arc@[x] is Some <==> red.original_direct_edge@[x] is Some);
            }
        }
    }
    let mut projection: Vec<Vec<usize>> = Vec::new();
    let mut v: usize = 0;
    while v < n
        invariant
            v <= n,
            projection@.len() == v,
            forall|x: int| 0 <= x < v ==> (#[trigger] projection@[x])@.len() == 0,
        decreases n - v,
    {
        projection.push(Vec::new());
        v = v + 1;
    }
    let mut i: usize = 0;
    while i < pc
        invariant
            graph.wf(),
            reduction_wf(*graph, *red),
            n == graph.n(),
            m == graph.m(),
            pc == red.p@.len(),
            hub == pc + red.q@.len(),
            i <= pc,
            projection@.len() == n,
            forall|x: int, c: int| 0 <= x < n && 0 <= c < projection@[x]@.len() ==> #[trigger] projection@[x]@[c] < hub,
        decreases pc - i,
    {
        let target_node: Option<usize> = match red.p[i].role {
            BipartiteRole::InternalP(value) => Some(value),
            BipartiteRole::OriginalP(edge) => {
                Some(graph.edges()[edge].from().as_usize())
            },
            _ => None,
        };
        if let Some(x) = target_node {
            let mut slots = projection[x].clone();
            slots.push(i);
            projection.set(x, slots);
        }
        i = i + 1;
    }
    let mut j: usize = 0;
    while j < qc
        invariant
            graph.wf(),
            reduction_wf(*graph, *red),
            n == graph.n(),
            m == graph.m(),
            pc == red.p@.len(),
            qc == red.q@.len(),
            hub == pc + qc,
            j <= qc,
            projection@.len() == n,
            forall|x: int, c: int| 0 <= x < n && 0 <= c < projection@[x]@.len() ==> #[trigger] projection@[x]@[c] < hub,
        decreases qc - j,
    {
        let target_node: Option<usize> = match red.q[j].role {
            BipartiteRole::InternalQ(value) => Some(value),
            BipartiteRole::OriginalQ(edge) => {
                Some(graph.edges()[edge].to().as_usize())
            },
            _ => None,
        };
        if let Some(x) = target_node {
            let mut slots = projection[x].clone();
            slots.push(pc + j);
            projection.set(x, slots);
        }
        j = j + 1;
    }
    let mut roles: Vec<Option<BipartiteRole>> = Vec::new();
    let mut i: usize = 0;
    while i < pc
        invariant
            pc == red.p@.len(),
            i <= pc,
            roles@.len() == i,
            forall|x: int| 0 <= x < i ==> #[trigger] roles@[x] == Some(red.p@[x].role),
        decreases pc - i,
    {
        roles.push(Some(red.p[i].role));
        i = i + 1;
    }
    let mut j: usize = 0;
    while j < qc
        invariant
            pc == red.p@.len(),
            qc == red.q@.len(),
            j <= qc,
            roles@.len() == pc + j,
            forall|x: int| 0 <= x < pc ==> #[trigger] roles@[x] == Some(red.p@[x].role),
            forall|x: int| 0 <= x < j ==> #[trigger] roles@[pc + x] == Some(red.q@[x].role),
        decreases qc - j,
    {
        roles.push(Some(red.q[j].role));
        j = j + 1;
    }
    roles.push(None);
    let w = WorkingSkeleton {
        node_count,
        hub,
        arcs,
        reduction_edge_arcs,
        original_direct_arc,
        original_node_projection: projection,
        node_roles: roles,
    };
    proof {
        assert forall|e: int| 0 <= e < red.edges@.len() implies {
            let copies = #[trigger] w.reduction_edge_arcs@[e]@;
            &&& copies.len() == thickness(*red, e)
            &&& forall|c: int| 0 <= c < copies.len() ==> {
                &&& copies[c] == copies_before(*red, e) + c
                &&& w.arcs@[copies[c] as int] == (WorkingArcSkeleton { from: red.edges@[e].p, to: (pc + red.edges@[e].q) as usize, initial_flow: 1 })
            }
        } by {
            let copies = w.reduction_edge_arcs@[e]@;
            assert forall|c: int| 0 <= c < copies.len() implies w.arcs@[copies[c] as int] == arcs0[copies[c] as int] by {
                lemma_copies_before_monotone(*red, e + 1, ec);
                assert(copies[c] < d);
            }
        }
        let pcc = pc as int;
        let qcc = qc as int;
        assert(w.hub == pcc + qcc);
        assert(w.node_count == pcc + qcc + 1);
        assert(w.arcs@.len() == dd + 2 * (pcc + qcc));
        assert(forall|k: int| 0 <= k < graph.m() ==> (#[trigger] w.original_direct_arc@[k] matches Some(a) ==> a < dd));
        assert(w.node_roles@[pcc + qcc] is None);
        assert(forall|k: int| 0 <= k < graph.m() ==> (#[trigger] w.original_direct_arc@[k] is Some <==> red.original_direct_edge@[k] is Some));
        assert(w.original_node_projection@.len() == graph.n());
        assert(forall|jj: int| 0 <= jj < qcc ==> #[trigger] w.node_roles@[pcc + jj] == Some(red.q@[jj].role));
        assert(forall|ii: int| 0 <= ii < pcc ==> #[trigger] w.node_roles@[ii] == Some(red.p@[ii].role));
        assert(dd == copies_before(*red, red.edges@.len() as int));
    }
    Ok(w)
}

/// A support edge of the unit-slot split: left slot, right slot, and the
/// reduction edge it came from (`None` for a dummy completion edge).
#[derive(Clone, Copy, Debug, Eq, PartialEq, Structural)]
pub struct SupportEdge {
    /// Left unit slot.
    pub left: usize,
    /// Right unit slot.
    pub right: usize,
    /// Originating reduction edge.
    pub reduction_edge: Option<usize>,
}

/// A perfect matching of `left_count` left and `right_count` right slots
/// that uses support edges only: `selected[j]` is the support edge that
/// matches right slot `j`, and no left slot is used twice.
pub open spec fn perfect_support_matching(left_count: nat, right_count: nat, support: Seq<SupportEdge>, selected: Seq<usize>) -> bool {
    &&& left_count == right_count
    &&& selected.len() == right_count
    &&& forall|j: int| 0 <= j < selected.len() ==> {
        let e = #[trigger] selected[j];
        &&& e < support.len()
        &&& support[e as int].right == j
        &&& support[e as int].left < left_count
    }
    &&& forall|j1: int, j2: int| 0 <= j1 < selected.len() && 0 <= j2 < selected.len() && j1 != j2 ==> support[#[trigger] selected[j1] as int].left != support[#[trigger] selected[j2] as int].left
}

/// Every support edge joins existing slots.
pub open spec fn support_in_range(left_count: nat, right_count: nat, support: Seq<SupportEdge>) -> bool {
    forall|e: int| 0 <= e < support.len() ==> (#[trigger] support[e]).left < left_count && support[e].right < right_count
}

spec fn matched_consistent(matched: Seq<Option<(usize, usize)>>, support: Seq<SupportEdge>) -> bool {
    forall|j: int| 0 <= j < matched.len() ==> (#[trigger] matched[j] matches Some(pair) ==> {
        &&& pair.1 < support.len()
        &&& support[pair.1 as int].right == j
        &&& support[pair.1 as int].left == pair.0
    })
}

spec fn adjacency_ok(adjacency: Seq<Vec<usize>>, support: Seq<SupportEdge>) -> bool {
    forall|l: int, c: int| 0 <= l < adjacency.len() && 0 <= c < adjacency[l]@.len() ==> {
        let e = #[trigger] adjacency[l]@[c];
        &&& e < support.len()
        &&& support[e as int].left == l
    }
}

proof fn lemma_count_true_grows(a: Seq<bool>, b: Seq<bool>, k: int)
    requires
        0 <= k <= a.len(),
        a.len() == b.len(),
        forall|j: int| 0 <= j < a.len() && #[trigger] a[j] ==> b[j],
    ensures
        count_true(a, k) <= count_true(b, k),
    decreases k,
{
    if k > 0 {
        lemma_count_true_grows(a, b, k - 1);
    }
}

fn augment_support(left: usize, adjacency: &Vec<Vec<usize>>, support: &Vec<SupportEdge>, matched_right: &mut Vec<Option<(usize, usize)>>, seen: &mut Vec<bool>, work: &mut u64) -> (r: Result<bool, InteriorPointMaxFlowError>)
    requires
        left < adjacency@.len(),
        adjacency_ok(adjacency@, support@),
        support_in_range(adjacency@.len(), old(seen)@.len(), support@),
        old(matched_right)@.len() == old(seen)@.len(),
        matched_consistent(old(matched_right)@, support@),
    ensures
        final(seen)@.len() == old(seen)@.len(),
        final(matched_right)@.len() == old(matched_right)@.len(),
        forall|j: int| 0 <= j < old(seen)@.len() && #[trigger] old(seen)@[j] ==> final(seen)@[j],
        matched_consistent(final(matched_right)@, support@),
        r is Err ==> r == Err::<bool, Ierr>(Ierr::RoundingFailure),
    decreases old(seen)@.len() - count_true(old(seen)@, old(seen)@.len() as int),
{
    let ghost seen0 = seen@;
    let rc = seen.len();
    let count = adjacency[left].len();
    proof {
        lemma_count_true_bounds(seen0, rc as int);
    }
    let mut c: usize = 0;
    while c < count
        invariant
            left < adjacency@.len(),
            count == adjacency@[left as int]@.len(),
            adjacency_ok(adjacency@, support@),
            support_in_range(adjacency@.len(), rc as nat, support@),
            seen0.len() == rc,
            seen0 == old(seen)@,
            old(matched_right)@.len() == rc,
            seen@.len() == rc,
            matched_right@.len() == rc,
            forall|j: int| 0 <= j < rc && #[trigger] seen0[j] ==> seen@[j],
            matched_consistent(matched_right@, support@),
            c <= count,
        decreases count - c,
    {
        let edge_index = adjacency[left][c];
        match work.checked_add(1) {
            Some(w) => {
                *work = w;
            },
            None => {
                return Err(Ierr::RoundingFailure);
            },
        }
        let right = support[edge_index].right;
        if !seen[right] {
            proof {
                lemma_count_true_grows(seen0, seen@, rc as int);
                lemma_count_true_set(seen@, right as int, rc as int);
            }
            seen.set(right, true);
            let replace = match matched_right[right] {
                None => true,
                Some(pair) => {
                    proof {
                        lemma_count_true_bounds(seen@, rc as int);
                    }
                    let ghost seen1 = seen@;
                    let result = augment_support(pair.0, adjacency, support, matched_right, seen, work);
                    proof {
                        assert forall|j: int| 0 <= j < rc && #[trigger] seen0[j] implies seen@[j] by {
                            assert(seen1[j]);
                        }
                    }
                    match result {
                        Ok(b) => b,
                        Err(e) => {
                            return Err(e);
                        },
                    }
                },
            };
            if replace {
                matched_right.set(right, Some((left, edge_index)));
                return Ok(true);
            }
        }
        c = c + 1;
    }
    Ok(false)
}

/// Finds a perfect matching inside the support by augmenting paths, one left
/// slot at a time.  Refuses unequal sides, a support edge outside the slots,
/// a left slot that cannot be matched, and a counter overflow.
pub fn support_perfect_matching(left_count: usize, right_count: usize, support: &Vec<SupportEdge>) -> (r: Result<(Vec<usize>, u64), InteriorPointMaxFlowError>)
    ensures
        r is Err ==> r == Err::<(Vec<usize>, u64), Ierr>(Ierr::RoundingFailure),
        left_count != right_count ==> r is Err,
        !support_in_range(left_count as nat, right_count as nat, support@) ==> r is Err,
        r matches Ok(res) ==> perfect_support_matching(left_count as nat, right_count as nat, support@, res.0@),
{
    if left_count != right_count {
        return Err(Ierr::RoundingFailure);
    }
    let mut adjacency: Vec<Vec<usize>> = Vec::new();
    let mut l: usize = 0;
    while l < left_count
        invariant
            l <= left_count,
            adjacency@.len() == l,
            forall|x: int| 0 <= x < l ==> (#[trigger] adjacency@[x])@.len() == 0,
        decreases left_count - l,
    {
        adjacency.push(Vec::new());
        l = l + 1;
    }
    let mut index: usize = 0;
    while index < support.len()
        invariant
            index <= support@.len(),
            adjacency@.len() == left_count,
            adjacency_ok(adjacency@, support@),
            support_in_range(left_count as nat, right_count as nat, support@.take(index as int)),
        decreases support@.len() - index,
    {
        let edge = support[index];
        if edge.left >= left_count || edge.right >= right_count {
            proof {
                assert(support@[index as int] == edge);
            }
            return Err(Ierr::RoundingFailure);
        }
        let mut slots = adjacency[edge.left].clone();
        slots.push(index);
        adjacency.set(edge.left, slots);
        proof {
            assert forall|e: int| 0 <= e < index + 1 implies (#[trigger] support@.take(index + 1)[e]).left < left_count && support@.take(index + 1)[e].right < right_count by {
                if e < index {
                    assert(support@.take(index + 1)[e] == support@.take(index as int)[e]);
                }
            }
        }
        index = index + 1;
    }
    proof {
        assert(support@.take(support@.len() as int) =~= support@);
    }
    let mut matched_right: Vec<Option<(usize, usize)>> = vec![None; right_count];
    let mut work: u64 = 0;
    let mut left: usize = 0;
    while left < left_count
        invariant
            left <= left_count,
            adjacency@.len() == left_count,
            adjacency_ok(adjacency@, support@),
            support_in_range(left_count as nat, right_count as nat, support@),
            matched_right@.len() == right_count,
            matched_consistent(matched_right@, support@),
        decreases left_count - left,
    {
        let mut seen: Vec<bool> = vec![false; right_count];
        match augment_support(left, &adjacency, support, &mut matched_right, &mut seen, &mut work) {
            Ok(true) => {},
            Ok(false) => {
                return Err(Ierr::RoundingFailure);
            },
            Err(e) => {
                return Err(e);
            },
        }
        left = left + 1;
    }
    let mut selected: Vec<usize> = Vec::new();
    let mut used: Vec<bool> = vec![false; left_count];
    let mut j: usize = 0;
    while j < right_count
        invariant
            left_count == right_count,
            j <= right_count,
            matched_right@.len() == right_count,
            matched_consistent(matched_right@, support@),
            support_in_range(left_count as nat, right_count as nat, support@),
            used@.len() == left_count,
            selected@.len() == j,
            forall|x: int| 0 <= x < j ==> {
                let e = #[trigger] selected@[x];
                &&& e < support@.len()
                &&& support@[e as int].right == x
                &&& support@[e as int].left < left_count
                &&& used@[support@[e as int].left as int]
            },
            forall|x1: int, x2: int| 0 <= x1 < j && 0 <= x2 < j && x1 != x2 ==> support@[#[trigger] selected@[x1] as int].left != support@[#[trigger] selected@[x2] as int].left,
        decreases right_count - j,
    {
        let e = match matched_right[j] {
            Some(pair) => pair.1,
            None => {
                return Err(Ierr::RoundingFailure);
            },
        };
        let l = support[e].left;
        if used[l] {
            return Err(Ierr::RoundingFailure);
        }
        used.set(l, true);
        selected.push(e);
        j = j + 1;
    }
    Ok((selected, work))
}

/// Demands of the first `i` vertices, summed.
pub open spec fn demand_prefix(nodes: Seq<BipartiteNode>, i: int) -> nat
    decreases i,
{
    if i <= 0 { 0 } else { demand_prefix(nodes, i - 1) + nodes[i - 1].demand as nat }
}

/// First unit slot of each vertex, and the slot count last: vertex `i` owns
/// the slots from `r[i]` up to `r[i + 1]`.  Refuses a total beyond `usize`.
pub fn demand_offsets(nodes: &Vec<BipartiteNode>) -> (r: Result<Vec<usize>, InteriorPointMaxFlowError>)
    ensures
        r is Err <==> demand_prefix(nodes@, nodes@.len() as int) > usize::MAX,
        r is Err ==> r == Err::<Vec<usize>, Ierr>(Ierr::RoundingFailure),
        r matches Ok(off) ==> off@.len() == nodes@.len() + 1 && forall|i: int| 0 <= i <= nodes@.len() ==> #[trigger] off@[i] == demand_prefix(nodes@, i),
{
    let mut offsets: Vec<usize> = Vec::new();
    offsets.push(0);
    let mut i: usize = 0;
    while i < nodes.len()
        invariant
            i <= nodes@.len(),
            offsets@.len() == i + 1,
            forall|x: int| 0 <= x <= i ==> #[trigger] offsets@[x] == demand_prefix(nodes@, x),
        decreases nodes@.len() - i,
    {
        let last = offsets[i];
        let demand = nodes[i].demand;
        if demand > (usize::MAX - last) as u64 {
            proof {
                lemma_demand_prefix_monotone(nodes@, i + 1, nodes@.len() as int);
            }
            return Err(Ierr::RoundingFailure);
        }
        offsets.push(last + demand as usize);
        i = i + 1;
    }
    assert(offsets@[nodes@.len() as int] == demand_prefix(nodes@, nodes@.len() as int));
    Ok(offsets)
}

proof fn lemma_demand_prefix_monotone(nodes: Seq<BipartiteNode>, a: int, b: int)
    requires
        0 <= a <= b <= nodes.len(),
    ensures
        demand_prefix(nodes, a) <= demand_prefix(nodes, b),
    decreases b - a,
{
    if a < b {
        lemma_demand_prefix_monotone(nodes, a, b - 1);
    }
}

/// Units that a `b`-matching puts at left vertex `i`, over the first `k` edges.
pub open spec fn p_degree(red: BipartiteReduction, matching: Seq<u64>, i: int, k: int) -> nat
    decreases k,
{
    if k <= 0 { 0 } else { p_degree(red, matching, i, k - 1) + if red.edges@[k - 1].p == i { matching[k - 1] as nat } else { 0 } }
}

/// Units that a `b`-matching puts at right vertex `i`, over the first `k` edges.
pub open spec fn q_degree(red: BipartiteReduction, matching: Seq<u64>, i: int, k: int) -> nat
    decreases k,
{
    if k <= 0 { 0 } else { q_degree(red, matching, i, k - 1) + if red.edges@[k - 1].q == i { matching[k - 1] as nat } else { 0 } }
}

/// A perfect `b`-matching: every vertex meets its demand exactly.
pub open spec fn perfect_b_matching(red: BipartiteReduction, matching: Seq<u64>) -> bool {
    let k = red.edges@.len() as int;
    &&& matching.len() == k
    &&& forall|i: int| 0 <= i < red.p@.len() ==> #[trigger] p_degree(red, matching, i, k) == red.p@[i].demand
    &&& forall|i: int| 0 <= i < red.q@.len() ==> #[trigger] q_degree(red, matching, i, k) == red.q@[i].demand
}

/// Reduction edges join existing vertices.
pub open spec fn reduction_edges_in_range(red: BipartiteReduction) -> bool {
    forall|e: int| 0 <= e < red.edges@.len() ==> (#[trigger] red.edges@[e]).p < red.p@.len() && red.edges@[e].q < red.q@.len()
}

spec fn slot_match_ok(matches: Seq<Option<(usize, usize)>>, other: nat, edges: nat) -> bool {
    forall|x: int| 0 <= x < matches.len() ==> (#[trigger] matches[x] matches Some(pair) ==> pair.0 < other && pair.1 < edges)
}

spec fn full_adjacency_ok(adjacency: Seq<Vec<(usize, usize)>>, right_count: nat, edges: nat) -> bool {
    forall|l: int, c: int| 0 <= l < adjacency.len() && 0 <= c < adjacency[l]@.len() ==> {
        let pair = #[trigger] adjacency[l]@[c];
        &&& pair.0 < right_count
        &&& pair.1 < edges
    }
}

fn augment_full(left: usize, adjacency: &Vec<Vec<(usize, usize)>>, match_left: &mut Vec<Option<(usize, usize)>>, match_right: &mut Vec<Option<(usize, usize)>>, seen: &mut Vec<bool>, work: &mut u64, Ghost(edges): Ghost<nat>) -> (r: Result<bool, InteriorPointMaxFlowError>)
    requires
        left < adjacency@.len(),
        old(match_left)@.len() == adjacency@.len(),
        old(match_right)@.len() == old(seen)@.len(),
        full_adjacency_ok(adjacency@, old(seen)@.len(), edges),
        slot_match_ok(old(match_left)@, old(seen)@.len(), edges),
        slot_match_ok(old(match_right)@, adjacency@.len(), edges),
    ensures
        final(seen)@.len() == old(seen)@.len(),
        final(match_left)@.len() == old(match_left)@.len(),
        final(match_right)@.len() == old(match_right)@.len(),
        forall|j: int| 0 <= j < old(seen)@.len() && #[trigger] old(seen)@[j] ==> final(seen)@[j],
        slot_match_ok(final(match_left)@, old(seen)@.len(), edges),
        slot_match_ok(final(match_right)@, adjacency@.len(), edges),
        r is Err ==> r == Err::<bool, Ierr>(Ierr::RoundingFailure),
    decreases old(seen)@.len() - count_true(old(seen)@, old(seen)@.len() as int),
{
    let ghost seen0 = seen@;
    let rc = seen.len();
    let lc = adjacency.len();
    let count = adjacency[left].len();
    proof {
        lemma_count_true_bounds(seen0, rc as int);
    }
    let mut c: usize = 0;
    while c < count
        invariant
            left < lc,
            lc == adjacency@.len(),
            count == adjacency@[left as int]@.len(),
            full_adjacency_ok(adjacency@, rc as nat, edges),
            seen0.len() == rc,
            seen0 == old(seen)@,
            old(match_left)@.len() == lc,
            old(match_right)@.len() == rc,
            seen@.len() == rc,
            match_left@.len() == lc,
            match_right@.len() == rc,
            forall|j: int| 0 <= j < rc && #[trigger] seen0[j] ==> seen@[j],
            slot_match_ok(match_left@, rc as nat, edges),
            slot_match_ok(match_right@, lc as nat, edges),
            c <= count,
        decreases count - c,
    {
        let (right, reduction_edge) = adjacency[left][c];
        match work.checked_add(1) {
            Some(w) => {
                *work = w;
            },
            None => {
                return Err(Ierr::RoundingFailure);
            },
        }
        if !seen[right] {
            proof {
                lemma_count_true_grows(seen0, seen@, rc as int);
                lemma_count_true_set(seen@, right as int, rc as int);
            }
            seen.set(right, true);
            let replace = match match_right[right] {
                None => true,
                Some(pair) => {
                    proof {
                        lemma_count_true_bounds(seen@, rc as int);
                    }
                    let ghost seen1 = seen@;
                    let result = augment_full(pair.0, adjacency, match_left, match_right, seen, work, Ghost(edges));
                    proof {
                        assert forall|j: int| 0 <= j < rc && #[trigger] seen0[j] implies seen@[j] by {
                            assert(seen1[j]);
                        }
                    }
                    match result {
                        Ok(b) => b,
                        Err(e) => {
                            return Err(e);
                        },
                    }
                },
            };
            if replace {
                if let Some(pair) = match_left[left] {
                    match_right.set(pair.0, None);
                }
                match_left.set(left, Some((right, reduction_edge)));
                match_right.set(right, Some((left, reduction_edge)));
                return Ok(true);
            }
        }
        c = c + 1;
    }
    Ok(false)
}

/// Turns the perfect support matching of the unit-slot split into a perfect
/// `b`-matching: keeps the selected support edges that came from reduction
/// edges (there must be at least `fractional_floor` of them), then augments
/// every unmatched left slot over all slot pairs that reduction edges join.
/// Returns the multiplicity of each reduction edge and the updated scan
/// counter; refuses whenever the result is not a perfect `b`-matching.
pub fn complete_b_matching(red: &BipartiteReduction, support: &Vec<SupportEdge>, selected: &Vec<usize>, fractional_floor: usize, work: u64) -> (r: Result<(Vec<u64>, u64), InteriorPointMaxFlowError>)
    requires
        reduction_edges_in_range(*red),
    ensures
        r is Err ==> r == Err::<(Vec<u64>, u64), Ierr>(Ierr::RoundingFailure),
        r matches Ok(res) ==> perfect_b_matching(*red, res.0@),
{
    let p_offsets = demand_offsets(&red.p)?;
    let q_offsets = demand_offsets(&red.q)?;
    let real_left = p_offsets[red.p.len()];
    let real_right = q_offsets[red.q.len()];
    let ec = red.edges.len();
    let ghost edges = ec as nat;
    let mut rounded_left: Vec<Option<(usize, usize)>> = vec![None; real_left];
    let mut rounded_right: Vec<Option<(usize, usize)>> = vec![None; real_right];
    let mut rounded_size: usize = 0;
    let mut i: usize = 0;
    while i < selected.len()
        invariant
            i <= selected@.len(),
            rounded_left@.len() == real_left,
            rounded_right@.len() == real_right,
            slot_match_ok(rounded_left@, real_right as nat, edges),
            slot_match_ok(rounded_right@, real_left as nat, edges),
            edges == ec,
            ec == red.edges@.len(),
            rounded_size <= i,
        decreases selected@.len() - i,
    {
        let index = selected[i];
        if index >= support.len() {
            return Err(Ierr::RoundingFailure);
        }
        let edge = support[index];
        if let Some(reduction_edge) = edge.reduction_edge {
            if edge.left >= real_left || edge.right >= real_right || reduction_edge >= ec
                || rounded_left[edge.left].is_some() || rounded_right[edge.right].is_some() {
                return Err(Ierr::RoundingFailure);
            }
            rounded_left.set(edge.left, Some((edge.right, reduction_edge)));
            rounded_right.set(edge.right, Some((edge.left, reduction_edge)));
            rounded_size = rounded_size + 1;
        }
        i = i + 1;
    }
    if rounded_size < fractional_floor {
        return Err(Ierr::RoundingFailure);
    }
    let mut full_adjacency: Vec<Vec<(usize, usize)>> = Vec::new();
    let pc = red.p.len();
    let qn = red.q.len();
    let mut owner: usize = 0;
    while owner < pc
        invariant
            reduction_edges_in_range(*red),
            pc == red.p@.len(),
            ec == red.edges@.len(),
            edges == ec,
            owner <= pc,
            qn == red.q@.len(),
            p_offsets@.len() == pc + 1,
            q_offsets@.len() == red.q@.len() + 1,
            forall|x: int| 0 <= x <= pc ==> #[trigger] p_offsets@[x] == demand_prefix(red.p@, x),
            forall|x: int| 0 <= x <= red.q@.len() ==> #[trigger] q_offsets@[x] == demand_prefix(red.q@, x),
            real_left == p_offsets@[pc as int],
            real_right == q_offsets@[red.q@.len() as int],
            full_adjacency@.len() == p_offsets@[owner as int],
            full_adjacency_ok(full_adjacency@, real_right as nat, edges),
        decreases pc - owner,
    {
        proof {
            lemma_demand_prefix_monotone(red.p@, owner as int, owner + 1);
        }
        let first = p_offsets[owner];
        let end = p_offsets[owner + 1];
        let mut left = first;
        while left < end
            invariant
                reduction_edges_in_range(*red),
                ec == red.edges@.len(),
                edges == ec,
                owner < pc,
                qn == red.q@.len(),
                first <= left <= end,
                full_adjacency@.len() == left,
                q_offsets@.len() == red.q@.len() + 1,
                forall|x: int| 0 <= x <= red.q@.len() ==> #[trigger] q_offsets@[x] == demand_prefix(red.q@, x),
                real_right == q_offsets@[red.q@.len() as int],
                full_adjacency_ok(full_adjacency@, real_right as nat, edges),
            decreases end - left,
        {
            let mut slots: Vec<(usize, usize)> = Vec::new();
            let mut e: usize = 0;
            while e < ec
                invariant
                    reduction_edges_in_range(*red),
                    ec == red.edges@.len(),
                    edges == ec,
                    e <= ec,
                    qn == red.q@.len(),
                    q_offsets@.len() == red.q@.len() + 1,
                    forall|x: int| 0 <= x <= red.q@.len() ==> #[trigger] q_offsets@[x] == demand_prefix(red.q@, x),
                    real_right == q_offsets@[red.q@.len() as int],
                    forall|c: int| 0 <= c < slots@.len() ==> (#[trigger] slots@[c]).0 < real_right && slots@[c].1 < edges,
                decreases ec - e,
            {
                let edge = red.edges[e];
                if edge.p == owner {
                    proof {
                        lemma_demand_prefix_monotone(red.q@, edge.q as int, edge.q + 1);
                        lemma_demand_prefix_monotone(red.q@, edge.q + 1, red.q@.len() as int);
                    }
                    let mut right = q_offsets[edge.q];
                    let stop = q_offsets[edge.q + 1];
                    while right < stop
                        invariant
                            stop <= real_right,
                            e < ec,
                            edges == ec,
                            forall|c: int| 0 <= c < slots@.len() ==> (#[trigger] slots@[c]).0 < real_right && slots@[c].1 < edges,
                        decreases stop - right,
                    {
                        slots.push((right, e));
                        right = right + 1;
                    }
                }
                e = e + 1;
            }
            full_adjacency.push(slots);
            left = left + 1;
        }
        owner = owner + 1;
    }
    let mut match_right = rounded_right;
    let mut work = work;
    let mut left: usize = 0;
    while left < real_left
        invariant
            left <= real_left,
            full_adjacency@.len() == real_left,
            full_adjacency_ok(full_adjacency@, real_right as nat, edges),
            rounded_left@.len() == real_left,
            match_right@.len() == real_right,
            slot_match_ok(rounded_left@, real_right as nat, edges),
            slot_match_ok(match_right@, real_left as nat, edges),
        decreases real_left - left,
    {
        if rounded_left[left].is_none() {
            let mut seen: Vec<bool> = vec![false; real_right];
            let _ = augment_full(left, &full_adjacency, &mut rounded_left, &mut match_right, &mut seen, &mut work, Ghost(edges))?;
        }
        left = left + 1;
    }
    let mut matching: Vec<u64> = vec![0; ec];
    let mut x: usize = 0;
    while x < real_left
        invariant
            x <= real_left,
            rounded_left@.len() == real_left,
            slot_match_ok(rounded_left@, real_right as nat, edges),
            edges == ec,
            matching@.len() == ec,
        decreases real_left - x,
    {
        match rounded_left[x] {
            Some(pair) => {
                let current = matching[pair.1];
                match current.checked_add(1) {
                    Some(value) => {
                        matching.set(pair.1, value);
                    },
                    None => {
                        return Err(Ierr::RoundingFailure);
                    },
                }
            },
            None => {
                return Err(Ierr::RoundingFailure);
            },
        }
        x = x + 1;
    }
    let mut y: usize = 0;
    while y < real_right
        invariant
            y <= real_right,
            match_right@.len() == real_right,
        decreases real_right - y,
    {
        if match_right[y].is_none() {
            return Err(Ierr::RoundingFailure);
        }
        y = y + 1;
    }
    if !degrees_meet_demands(red, &matching) {
        return Err(Ierr::RoundingFailure);
    }
    Ok((matching, work))
}

fn degrees_meet_demands(red: &BipartiteReduction, matching: &Vec<u64>) -> (r: bool)
    requires
        reduction_edges_in_range(*red),
        matching@.len() == red.edges@.len(),
    ensures
        r ==> perfect_b_matching(*red, matching@),
{
    let ec = red.edges.len();
    let mut pd: Vec<u64> = vec![0; red.p.len()];
    let mut qd: Vec<u64> = vec![0; red.q.len()];
    let mut e: usize = 0;
    while e < ec
        invariant
            reduction_edges_in_range(*red),
            ec == red.edges@.len(),
            matching@.len() == ec,
            e <= ec,
            pd@.len() == red.p@.len(),
            qd@.len() == red.q@.len(),
            forall|i: int| 0 <= i < red.p@.len() ==> #[trigger] pd@[i] == p_degree(*red, matching@, i, e as int),
            forall|i: int| 0 <= i < red.q@.len() ==> #[trigger] qd@[i] == q_degree(*red, matching@, i, e as int),
        decreases ec - e,
    {
        let edge = red.edges[e];
        let value = matching[e];
        let a = pd[edge.p];
        let b = qd[edge.q];
        if a > u64::MAX - value || b > u64::MAX - value {
            return false;
        }
        pd.set(edge.p, a + value);
        qd.set(edge.q, b + value);
        e = e + 1;
    }
    let mut i: usize = 0;
    while i < red.p.len()
        invariant
            i <= red.p@.len(),
            pd@.len() == red.p@.len(),
            ec == red.edges@.len(),
            forall|x: int| 0 <= x < red.p@.len() ==> #[trigger] pd@[x] == p_degree(*red, matching@, x, ec as int),
            forall|x: int| 0 <= x < i ==> #[trigger] p_degree(*red, matching@, x, ec as int) == red.p@[x].demand,
        decreases red.p@.len() - i,
    {
        if pd[i] != red.p[i].demand {
            return false;
        }
        i = i + 1;
    }
    let mut j: usize = 0;
    while j < red.q.len()
        invariant
            j <= red.q@.len(),
            qd@.len() == red.q@.len(),
            ec == red.edges@.len(),
            forall|x: int| 0 <= x < red.q@.len() ==> #[trigger] qd@[x] == q_degree(*red, matching@, x, ec as int),
            forall|x: int| 0 <= x < red.p@.len() ==> #[trigger] p_degree(*red, matching@, x, ec as int) == red.p@[x].demand,
            forall|x: int| 0 <= x < j ==> #[trigger] q_degree(*red, matching@, x, ec as int) == red.q@[x].demand,
        decreases red.q@.len() - j,
    {
        if qd[j] != red.q[j].demand {
            return false;
        }
        j = j + 1;
    }
    true
}

/// The original flow a `b`-matching encodes: each original edge carries the
/// multiplicity of its direct reduction edge, or nothing without one.
pub open spec fn encoded_flow(red: BipartiteReduction, matching: Seq<u64>, k: int) -> u64 {
    match red.original_direct_edge@[k] {
        Some(e) => matching[e as int],
        None => 0,
    }
}

/// Reads the integral original flow off a `b`-matching.
pub fn extract_integral_flow(graph: &FlowNetwork, red: &BipartiteReduction, matching: &Vec<u64>) -> (r: Result<Vec<u64>, InteriorPointMaxFlowError>)
    ensures
        r is Err ==> r == Err::<Vec<u64>, Ierr>(Ierr::RoundingFailure),
        (matching@.len() == red.edges@.len() && red.original_direct_edge@.len() == graph.m()
            && forall|k: int| 0 <= k < graph.m() ==> (#[trigger] red.original_direct_edge@[k] matches Some(e) ==> e < matching@.len())) ==> r is Ok,
        r matches Ok(f) ==> f@.len() == graph.m() && forall|k: int| 0 <= k < graph.m() ==> #[trigger] f@[k] == encoded_flow(*red, matching@, k),
{
    let m = graph.edges().len();
    if matching.len() != red.edges.len() || red.original_direct_edge.len() != m {
        return Err(Ierr::RoundingFailure);
    }
    let mut flows: Vec<u64> = Vec::new();
    let mut k: usize = 0;
    while k < m
        invariant
            m == graph.m(),
            red.original_direct_edge@.len() == m,
            k <= m,
            flows@.len() == k,
            forall|j: int| 0 <= j < k ==> #[trigger] flows@[j] == encoded_flow(*red, matching@, j),
            forall|j: int| 0 <= j < k ==> (#[trigger] red.original_direct_edge@[j] matches Some(e) ==> e < matching@.len()),
        decreases m - k,
    {
        match red.original_direct_edge[k] {
            Some(e) => {
                if e >= matching.len() {
                    return Err(Ierr::RoundingFailure);
                }
                flows.push(matching[e]);
            },
            None => {
                flows.push(0);
            },
        }
        k = k + 1;
    }
    Ok(flows)
}

/// Certifies an integral flow against the enumerated target: the flow must
/// be a maximum flow of exactly that value.  Because every cut bounds every
/// feasible flow, the target is then the minimum capacity over all cuts.
pub fn certify_target_flow(graph: &FlowNetwork, source: NodeIndex, sink: NodeIndex, target: u64, flows: &Vec<u64>) -> (r: Result<MaxFlowCertificate, InteriorPointMaxFlowError>)
    ensures
        r is Err ==> r == Err::<MaxFlowCertificate, Ierr>(Ierr::CertificateFailure),
        r matches Ok(c) ==> {
            &&& is_maximum_flow(*graph, ints(flows@), source@ as int, sink@ as int)
            &&& flow_value(*graph, ints(flows@), source@ as int) == target
            &&& c.value == target
            &&& c.cut_bound == target
            &&& is_st_cut(*graph, c.source_side@, source@ as int, sink@ as int)
            &&& cut_capacity(*graph, c.source_side@) == target
            &&& forall|side: Seq<bool>| #[trigger] is_st_cut(*graph, side, source@ as int, sink@ as int) ==> target <= cut_capacity(*graph, side)
            &&& forall|v: int| 0 <= v < graph.n() ==> (#[trigger] c.source_side@[v] <==> forced(*graph, ints(flows@), source@ as int, v))
        },
        r is Ok <==> flows@.len() == graph.m() && feasible_st_flow(*graph, ints(flows@), source@ as int, sink@ as int)
            && !forced(*graph, ints(flows@), source@ as int, sink@ as int) && flow_value(*graph, ints(flows@), source@ as int) == target,
{
    let certificate = match check_max_flow(graph, source, sink, flows.as_slice()) {
        Ok(c) => c,
        Err(_) => {
            return Err(Ierr::CertificateFailure);
        },
    };
    if certificate.value != target as i128 || certificate.cut_bound != target as i128 {
        return Err(Ierr::CertificateFailure);
    }
    proof {
        use_type_invariant(graph);
        let f = ints(flows@);
        assert forall|side: Seq<bool>| #[trigger] is_st_cut(*graph, side, source@ as int, sink@ as int) implies target <= cut_capacity(*graph, side) by {
            lemma_flow_value_at_most_cut(*graph, f, side, source@ as int, sink@ as int);
        }
    }
    Ok(certificate)
}

/// What a published result has established.
pub open spec fn ipm_terminal_ok(g: FlowNetwork, s: NodeIndex, t: NodeIndex, res: InteriorPointMaxFlowResult) -> bool {
    &&& res.final_snapshot.stage == InteriorPointMaxFlowStage::Optimal
    &&& res.final_snapshot.metrics == res.metrics
    &&& res.flows@.len() == g.m()
    &&& res.final_snapshot.edges@.len() == g.m()
    &&& forall|k: int| 0 <= k < g.m() ==> (#[trigger] res.final_snapshot.edges@[k]).final_flow == Some(res.flows@[k])
    &&& is_maximum_flow(g, ints(res.flows@), s@ as int, t@ as int)
    &&& res.certificate.value == flow_value(g, ints(res.flows@), s@ as int)
    &&& is_st_cut(g, res.certificate.source_side@, s@ as int, t@ as int)
    &&& res.certificate.cut_bound == cut_capacity(g, res.certificate.source_side@)
    &&& res.certificate.value == res.certificate.cut_bound
}

/// A terminal result that the independent checker reproduces: final stage
/// and counters agree, the final flows are the published flows, the flows
/// form a feasible flow with no augmenting path, and the published
/// certificate is the checker's, whose source side is the set of nodes that
/// every residually closed set around the source holds.
#[verifier::opaque]
pub open spec fn ipm_terminal_canonical(g: FlowNetwork, s: NodeIndex, t: NodeIndex, res: InteriorPointMaxFlowResult) -> bool {
    &&& res.final_snapshot.stage == InteriorPointMaxFlowStage::Optimal
    &&& res.final_snapshot.metrics == res.metrics
    &&& res.flows@.len() == g.m()
    &&& res.final_snapshot.edges@.len() == g.m()
    &&& forall|k: int| 0 <= k < g.m() ==> (#[trigger] res.final_snapshot.edges@[k]).final_flow == Some(res.flows@[k])
    &&& s@ < g.n() && t@ < g.n() && s@ != t@
    &&& feasible_st_flow(g, ints(res.flows@), s@ as int, t@ as int)
    &&& !forced(g, ints(res.flows@), s@ as int, t@ as int)
    &&& res.certificate.value == flow_value(g, ints(res.flows@), s@ as int)
    &&& res.certificate.source_side@.len() == g.n()
    &&& forall|v: int| 0 <= v < g.n() ==> (#[trigger] res.certificate.source_side@[v] <==> forced(g, ints(res.flows@), s@ as int, v))
    &&& res.certificate.cut_bound == cut_capacity(g, res.certificate.source_side@)
}

fn same_sides(a: &Vec<bool>, b: &Vec<bool>) -> (r: bool)
    ensures
        r ==> a@ == b@,
        r == (a@ == b@),
{
    if a.len() != b.len() {
        return false;
    }
    let mut i: usize = 0;
    while i < a.len()
        invariant
            a@.len() == b@.len(),
            i <= a@.len(),
            forall|j: int| 0 <= j < i ==> a@[j] == b@[j],
        decreases a@.len() - i,
    {
        if a[i] != b[i] {
            return false;
        }
        i = i + 1;
    }
    proof {
        assert(a@ =~= b@);
    }
    true
}

/// Checks a finished result: the optimal stage, consistent counters, final
/// flows published on every edge, and a certificate equal to a fresh one.
pub fn validate_interior_point_terminal(graph: &FlowNetwork, source: NodeIndex, sink: NodeIndex, result: &InteriorPointMaxFlowResult) -> (r: Result<(), InteriorPointMaxFlowError>)
    ensures
        r is Err ==> r == Err::<(), Ierr>(Ierr::CertificateFailure),
        r is Ok ==> ipm_terminal_ok(*graph, source, sink, *result),
        r is Ok <==> ipm_terminal_canonical(*graph, source, sink, *result),
{
    proof {
        reveal(ipm_terminal_canonical);
    }
    let m = graph.edges().len();
    let snapshot = &result.final_snapshot;
    if snapshot.stage != InteriorPointMaxFlowStage::Optimal || snapshot.metrics != result.metrics || snapshot.edges.len() != m {
        return Err(Ierr::CertificateFailure);
    }
    let fresh = match check_max_flow(graph, source, sink, result.flows.as_slice()) {
        Ok(c) => c,
        Err(_) => {
            return Err(Ierr::CertificateFailure);
        },
    };
    let mut k: usize = 0;
    while k < m
        invariant
            m == graph.m(),
            snapshot == &result.final_snapshot,
            snapshot.edges@.len() == m,
            result.flows@.len() == m,
            k <= m,
            forall|j: int| 0 <= j < k ==> (#[trigger] snapshot.edges@[j]).final_flow == Some(result.flows@[j]),
        decreases m - k,
    {
        if snapshot.edges[k].final_flow != Some(result.flows[k]) {
            proof {
                reveal(ipm_terminal_canonical);
            }
            return Err(Ierr::CertificateFailure);
        }
        k = k + 1;
    }
    proof {
        if ipm_terminal_canonical(*graph, source, sink, *result) {
            assert(fresh.source_side@ =~= result.certificate.source_side@);
        }
    }
    if fresh.value != result.certificate.value || fresh.cut_bound != result.certificate.cut_bound
        || !same_sides(&fresh.source_side, &result.certificate.source_side) {
        return Err(Ierr::CertificateFailure);
    }
    Ok(())
}

/// The text of the event identity of `stage`, for every stage but the
/// ready one.
pub open spec fn stage_catalog_text(stage: InteriorPointMaxFlowStage) -> Seq<char> {
    match stage {
        InteriorPointMaxFlowStage::Ready => Seq::empty(),
        InteriorPointMaxFlowStage::EnumerateTargetCut => "ipm.enumerate-target-cut"@,
        InteriorPointMaxFlowStage::BuildBMatchingReduction => "ipm.build-b-matching-reduction"@,
        InteriorPointMaxFlowStage::BuildMinCostReduction => "ipm.build-min-cost-reduction"@,
        InteriorPointMaxFlowStage::InitializeCentralPath => "ipm.initialize-zero-centered"@,
        InteriorPointMaxFlowStage::SolveElectricalDirection => "ipm.solve-associated-electrical"@,
        InteriorPointMaxFlowStage::SolveElectricalPivot => "ipm.elimination-pivot"@,
        InteriorPointMaxFlowStage::DescentStep => "ipm.descent"@,
        InteriorPointMaxFlowStage::SolveCenteringDirection => "ipm.solve-centering-electrical"@,
        InteriorPointMaxFlowStage::CenteringStep => "ipm.center"@,
        InteriorPointMaxFlowStage::ExtractFractionalFlow => "ipm.extract-fractional-flow"@,
        InteriorPointMaxFlowStage::RoundIntegralFlow => "ipm.round-integral-flow"@,
        InteriorPointMaxFlowStage::CheckCertificate => "ipm.check-certificate"@,
        InteriorPointMaxFlowStage::Optimal => "ipm.optimal"@,
    }
}

/// The stable event identity published for entering `stage`; the ready
/// stage is never entered.
pub fn interior_point_catalog_id(stage: InteriorPointMaxFlowStage) -> (r: Option<&'static str>)
    ensures
        r is None <==> stage == InteriorPointMaxFlowStage::Ready,
        r matches Some(text) ==> text@ == stage_catalog_text(stage),
{
    match stage {
        InteriorPointMaxFlowStage::Ready => None,
        InteriorPointMaxFlowStage::EnumerateTargetCut => Some("ipm.enumerate-target-cut"),
        InteriorPointMaxFlowStage::BuildBMatchingReduction => Some("ipm.build-b-matching-reduction"),
        InteriorPointMaxFlowStage::BuildMinCostReduction => Some("ipm.build-min-cost-reduction"),
        InteriorPointMaxFlowStage::InitializeCentralPath => Some("ipm.initialize-zero-centered"),
        InteriorPointMaxFlowStage::SolveElectricalDirection => Some("ipm.solve-associated-electrical"),
        InteriorPointMaxFlowStage::SolveElectricalPivot => Some("ipm.elimination-pivot"),
        InteriorPointMaxFlowStage::DescentStep => Some("ipm.descent"),
        InteriorPointMaxFlowStage::SolveCenteringDirection => Some("ipm.solve-centering-electrical"),
        InteriorPointMaxFlowStage::CenteringStep => Some("ipm.center"),
        InteriorPointMaxFlowStage::ExtractFractionalFlow => Some("ipm.extract-fractional-flow"),
        InteriorPointMaxFlowStage::RoundIntegralFlow => Some("ipm.round-integral-flow"),
        InteriorPointMaxFlowStage::CheckCertificate => Some("ipm.check-certificate"),
        InteriorPointMaxFlowStage::Optimal => Some("ipm.optimal"),
    }
}

/// The stage moves the method may make in one event.
pub open spec fn stage_step_ok(a: InteriorPointMaxFlowStage, b: InteriorPointMaxFlowStage) -> bool {
    ||| a == Stage::Ready && b == Stage::EnumerateTargetCut
    ||| a == Stage::EnumerateTargetCut && b == Stage::BuildBMatchingReduction
    ||| a == Stage::BuildBMatchingReduction && b == Stage::BuildMinCostReduction
    ||| a == Stage::BuildMinCostReduction && b == Stage::InitializeCentralPath
    ||| (a == Stage::InitializeCentralPath || a == Stage::CenteringStep) && (b == Stage::SolveElectricalPivot || b == Stage::SolveElectricalDirection)
    ||| a == Stage::SolveElectricalPivot && (b == Stage::SolveElectricalPivot || b == Stage::SolveElectricalDirection || b == Stage::SolveCenteringDirection)
    ||| a == Stage::SolveElectricalDirection && b == Stage::DescentStep
    ||| a == Stage::DescentStep && (b == Stage::SolveElectricalPivot || b == Stage::SolveCenteringDirection)
    ||| a == Stage::SolveCenteringDirection && b == Stage::CenteringStep
    ||| (a == Stage::InitializeCentralPath || a == Stage::CenteringStep) && b == Stage::ExtractFractionalFlow
    ||| a == Stage::ExtractFractionalFlow && b == Stage::RoundIntegralFlow
    ||| a == Stage::RoundIntegralFlow && b == Stage::CheckCertificate
    ||| a == Stage::CheckCertificate && b == Stage::Optimal
}

fn stage_step(a: InteriorPointMaxFlowStage, b: InteriorPointMaxFlowStage) -> (r: bool)
    ensures
        r == stage_step_ok(a, b),
{
    match a {
        Stage::Ready => b == Stage::EnumerateTargetCut,
        Stage::EnumerateTargetCut => b == Stage::BuildBMatchingReduction,
        Stage::BuildBMatchingReduction => b == Stage::BuildMinCostReduction,
        Stage::BuildMinCostReduction => b == Stage::InitializeCentralPath,
        Stage::InitializeCentralPath | Stage::CenteringStep => b == Stage::SolveElectricalPivot || b == Stage::SolveElectricalDirection || b == Stage::ExtractFractionalFlow,
        Stage::SolveElectricalPivot => b == Stage::SolveElectricalPivot || b == Stage::SolveElectricalDirection || b == Stage::SolveCenteringDirection,
        Stage::SolveElectricalDirection => b == Stage::DescentStep,
        Stage::DescentStep => b == Stage::SolveElectricalPivot || b == Stage::SolveCenteringDirection,
        Stage::SolveCenteringDirection => b == Stage::CenteringStep,
        Stage::ExtractFractionalFlow => b == Stage::RoundIntegralFlow,
        Stage::RoundIntegralFlow => b == Stage::CheckCertificate,
        Stage::CheckCertificate => b == Stage::Optimal,
        Stage::Optimal => false,
    }
}

fn saturating_increment(x: u64) -> (r: u64)
    ensures
        r == if x == u64::MAX { x as int } else { x + 1 },
{
    if x == u64::MAX { x } else { x + 1 }
}

/// The shape every published event has: a permitted stage move and a pivot
/// row exactly on elimination-pivot events, each of which counts one pivot.
pub open spec fn event_shape_ok(e: InteriorPointMaxFlowTraceEvent) -> bool {
    let pivot = e.after.stage == InteriorPointMaxFlowStage::SolveElectricalPivot;
    &&& stage_step_ok(e.before.stage, e.after.stage)
    &&& pivot == (e.after.active_pivot_node is Some && (e.after.active_pivot_original_nodes@.len() > 0 || e.after.active_pivot_original_edges@.len() > 0))
    &&& !pivot ==> e.after.active_pivot_original_nodes@.len() == 0 && e.after.active_pivot_original_edges@.len() == 0
    &&& pivot ==> e.after.metrics.elimination_pivots == if e.before.metrics.elimination_pivots == u64::MAX { u64::MAX as int } else { e.before.metrics.elimination_pivots + 1 }
    &&& !pivot ==> e.after.metrics.elimination_pivots == e.before.metrics.elimination_pivots
}

/// An event of permitted shape that carries the catalog identity of the
/// stage it enters.
#[verifier::opaque]
pub open spec fn event_ok(e: InteriorPointMaxFlowTraceEvent) -> bool {
    &&& event_shape_ok(e)
    &&& carries_catalog_id(e)
}

/// The event's catalog identity is that of the stage it enters.
#[verifier::opaque]
pub open spec fn carries_catalog_id(e: InteriorPointMaxFlowTraceEvent) -> bool {
    e.catalog_id.spec_bytes() == encode_utf8(stage_catalog_text(e.after.stage))
}

/// Whether one event has a permitted shape (see `event_shape_ok`) and the
/// catalog identity of the stage it enters.
pub fn valid_interior_point_event(event: &InteriorPointMaxFlowTraceEvent) -> (r: bool)
    ensures
        r == event_ok(*event),
{
    proof {
        reveal(event_ok);
    }
    let catalog_matches_stage = match interior_point_catalog_id(event.after.stage) {
        Some(id) => same_text(event.catalog_id, id),
        None => false,
    };
    proof {
        reveal(carries_catalog_id);
    }
    let stage_transition = stage_step(event.before.stage, event.after.stage);
    let pivot_stage = event.after.stage == InteriorPointMaxFlowStage::SolveElectricalPivot;
    let nodes_empty = event.after.active_pivot_original_nodes.len() == 0;
    let edges_empty = event.after.active_pivot_original_edges.len() == 0;
    let pivot_scope = pivot_stage == (event.after.active_pivot_node.is_some() && (!nodes_empty || !edges_empty))
        && (pivot_stage || (nodes_empty && edges_empty));
    let pivot_metric = if pivot_stage {
        event.after.metrics.elimination_pivots == saturating_increment(event.before.metrics.elimination_pivots)
    } else {
        event.after.metrics.elimination_pivots == event.before.metrics.elimination_pivots
    };
    catalog_matches_stage && stage_transition && pivot_scope && pivot_metric
}

/// The ready state of a run: every scalar zero, no target, no reduction,
/// zero counters, and each edge marked as normalized away exactly when it
/// enters the source or leaves the sink.
pub open spec fn ready_snapshot_ok(g: FlowNetwork, s: NodeIndex, t: NodeIndex, snap: InteriorPointMaxFlowSnapshot) -> bool {
    &&& snap.stage == InteriorPointMaxFlowStage::Ready
    &&& snap.target_value == 0
    &&& snap.mu@ == 0 && snap.duality_gap@ == 0 && snap.centrality@ == 0
    &&& snap.congestion_l4@ == 0 && snap.step_size@ == 0 && snap.electrical_energy@ == 0
    &&& snap.b_matching_nodes == 0 && snap.b_matching_edges == 0
    &&& snap.working_nodes == 0 && snap.working_edges == 0
    &&& snap.active_working_edge is None
    &&& snap.active_pivot_node is None
    &&& snap.active_pivot_original_nodes@.len() == 0
    &&& snap.active_pivot_original_edges@.len() == 0
    &&& snap.metrics == InteriorPointMaxFlowMetrics::zero_spec()
    &&& snap.nodes@.len() == g.n()
    &&& forall|v: int| 0 <= v < g.n() ==> {
        let x = #[trigger] snap.nodes@[v];
        &&& x.node@ == v
        &&& x.potential@ == 0
        &&& !x.target_source_side
    }
    &&& snap.edges@.len() == g.m()
    &&& forall|k: int| 0 <= k < g.m() ==> {
        let x = #[trigger] snap.edges@[k];
        let e = g.edge_seq()[k];
        &&& x.edge@ == e.id@
        &&& x.fractional_flow@ == 0 && x.electrical_current@ == 0 && x.slack@ == 0
        &&& x.measure@ == 0 && x.resistance@ == 0 && x.congestion@ == 0
        &&& x.normalized_away == (e.to@ == s@ || e.from@ == t@)
        &&& x.final_flow is None
    }
}

/// Whether each edge enters the source or leaves the sink; such edges carry
/// no flow in any maximum flow the method reports.
pub fn terminal_normalization(graph: &FlowNetwork, source: NodeIndex, sink: NodeIndex) -> (r: Vec<bool>)
    ensures
        r@.len() == graph.m(),
        forall|k: int| 0 <= k < graph.m() ==> #[trigger] r@[k] == (graph.edge_seq()[k].to@ == source@ || graph.edge_seq()[k].from@ == sink@),
{
    let m = graph.edges().len();
    let mut r: Vec<bool> = Vec::new();
    let mut k: usize = 0;
    while k < m
        invariant
            m == graph.m(),
            k <= m,
            r@.len() == k,
            forall|j: int| 0 <= j < k ==> #[trigger] r@[j] == (graph.edge_seq()[j].to@ == source@ || graph.edge_seq()[j].from@ == sink@),
        decreases m - k,
    {
        let e = &graph.edges()[k];
        assert(graph.edge_seq()[k as int] == *e);
        r.push(e.to().as_usize() == source.as_usize() || e.from().as_usize() == sink.as_usize());
        k = k + 1;
    }
    r
}

/// The ready state of a run on `graph`.
pub fn ready_snapshot(graph: &FlowNetwork, source: NodeIndex, sink: NodeIndex) -> (r: InteriorPointMaxFlowSnapshot)
    ensures
        ready_snapshot_ok(*graph, source, sink, r),
{
    let zero = InteriorPointScalar::zero();
    let n = graph.nodes().len();
    let m = graph.edges().len();
    let mut nodes: Vec<InteriorPointNodeState> = Vec::new();
    let mut v: usize = 0;
    while v < n
        invariant
            n == graph.n(),
            zero@ == 0,
            v <= n,
            nodes@.len() == v,
            forall|u: int| 0 <= u < v ==> {
                let x = #[trigger] nodes@[u];
                &&& x.node@ == u
                &&& x.potential@ == 0
                &&& !x.target_source_side
            },
        decreases n - v,
    {
        proof {
            use_type_invariant(graph);
        }
        let node = NodeIndex::try_from_usize(v).unwrap();
        nodes.push(InteriorPointNodeState { node, potential: zero, target_source_side: false });
        v = v + 1;
    }
    let away = terminal_normalization(graph, source, sink);
    let mut edges: Vec<InteriorPointEdgeState> = Vec::new();
    let mut k: usize = 0;
    while k < m
        invariant
            m == graph.m(),
            zero@ == 0,
            away@.len() == m,
            forall|j: int| 0 <= j < m ==> #[trigger] away@[j] == (graph.edge_seq()[j].to@ == source@ || graph.edge_seq()[j].from@ == sink@),
            k <= m,
            edges@.len() == k,
            forall|j: int| 0 <= j < k ==> {
                let x = #[trigger] edges@[j];
                let e = graph.edge_seq()[j];
                &&& x.edge@ == e.id@
                &&& x.fractional_flow@ == 0 && x.electrical_current@ == 0 && x.slack@ == 0
                &&& x.measure@ == 0 && x.resistance@ == 0 && x.congestion@ == 0
                &&& x.normalized_away == (e.to@ == source@ || e.from@ == sink@)
                &&& x.final_flow is None
            },
        decreases m - k,
    {
        let e = &graph.edges()[k];
        assert(graph.edge_seq()[k as int] == *e);
        edges.push(InteriorPointEdgeState {
            edge: e.id().duplicate(),
            fractional_flow: zero,
            electrical_current: zero,
            slack: zero,
            measure: zero,
            resistance: zero,
            congestion: zero,
            normalized_away: away[k],
            final_flow: None,
        });
        k = k + 1;
    }
    InteriorPointMaxFlowSnapshot {
        nodes,
        edges,
        target_value: 0,
        mu: zero,
        duality_gap: zero,
        centrality: zero,
        congestion_l4: zero,
        step_size: zero,
        electrical_energy: zero,
        b_matching_nodes: 0,
        b_matching_edges: 0,
        working_nodes: 0,
        working_edges: 0,
        active_working_edge: None,
        active_pivot_node: None,
        active_pivot_original_nodes: Vec::new(),
        active_pivot_original_edges: Vec::new(),
        stage: InteriorPointMaxFlowStage::Ready,
        metrics: InteriorPointMaxFlowMetrics::default(),
    }
}

fn valid_interior_point_base(graph: &FlowNetwork, source: NodeIndex, sink: NodeIndex, snapshot: &InteriorPointMaxFlowSnapshot) -> (r: bool)
    ensures
        r ==> ready_snapshot_ok(*graph, source, sink, *snapshot),
        r == ready_snapshot_ok(*graph, source, sink, *snapshot),
{
    let n = graph.nodes().len();
    let m = graph.edges().len();
    if !(snapshot.stage == InteriorPointMaxFlowStage::Ready && snapshot.target_value == 0
        && snapshot.mu.is_zero() && snapshot.duality_gap.is_zero() && snapshot.centrality.is_zero()
        && snapshot.congestion_l4.is_zero() && snapshot.step_size.is_zero() && snapshot.electrical_energy.is_zero()
        && snapshot.b_matching_nodes == 0 && snapshot.b_matching_edges == 0
        && snapshot.working_nodes == 0 && snapshot.working_edges == 0
        && snapshot.active_working_edge.is_none() && snapshot.active_pivot_node.is_none()
        && snapshot.active_pivot_original_nodes.len() == 0 && snapshot.active_pivot_original_edges.len() == 0
        && snapshot.metrics == InteriorPointMaxFlowMetrics::default()
        && snapshot.nodes.len() == n && snapshot.edges.len() == m) {
        return false;
    }
    let mut v: usize = 0;
    while v < n
        invariant
            n == graph.n(),
            snapshot.nodes@.len() == n,
            v <= n,
            forall|u: int| 0 <= u < v ==> {
                let x = #[trigger] snapshot.nodes@[u];
                &&& x.node@ == u
                &&& x.potential@ == 0
                &&& !x.target_source_side
            },
        decreases n - v,
    {
        let x = &snapshot.nodes[v];
        if x.node.as_usize() != v || !x.potential.is_zero() || x.target_source_side {
            return false;
        }
        v = v + 1;
    }
    let away = terminal_normalization(graph, source, sink);
    let mut k: usize = 0;
    while k < m
        invariant
            m == graph.m(),
            snapshot.edges@.len() == m,
            away@.len() == m,
            forall|j: int| 0 <= j < m ==> #[trigger] away@[j] == (graph.edge_seq()[j].to@ == source@ || graph.edge_seq()[j].from@ == sink@),
            k <= m,
            forall|j: int| 0 <= j < k ==> {
                let x = #[trigger] snapshot.edges@[j];
                let e = graph.edge_seq()[j];
                &&& x.edge@ == e.id@
                &&& x.fractional_flow@ == 0 && x.electrical_current@ == 0 && x.slack@ == 0
                &&& x.measure@ == 0 && x.resistance@ == 0 && x.congestion@ == 0
                &&& x.normalized_away == (e.to@ == source@ || e.from@ == sink@)
                &&& x.final_flow is None
            },
        decreases m - k,
    {
        let x = &snapshot.edges[k];
        let e = &graph.edges()[k];
        assert(graph.edge_seq()[k as int] == *e);
        if x.edge.compare(e.id()) != 0 || !x.fractional_flow.is_zero() || !x.electrical_current.is_zero()
            || !x.slack.is_zero() || !x.measure.is_zero() || !x.resistance.is_zero() || !x.congestion.is_zero()
            || x.normalized_away != away[k] || x.final_flow.is_some() {
            return false;
        }
        k = k + 1;
    }
    true
}

/// Two node states agree field by field.
pub open spec fn ipm_node_state_equal(x: InteriorPointNodeState, y: InteriorPointNodeState) -> bool {
    x.node@ == y.node@ && x.potential == y.potential && x.target_source_side == y.target_source_side
}

/// Two edge states agree field by field.
pub open spec fn ipm_edge_state_equal(x: InteriorPointEdgeState, y: InteriorPointEdgeState) -> bool {
    &&& x.edge@ == y.edge@
    &&& x.fractional_flow == y.fractional_flow
    &&& x.electrical_current == y.electrical_current
    &&& x.slack == y.slack
    &&& x.measure == y.measure
    &&& x.resistance == y.resistance
    &&& x.congestion == y.congestion
    &&& x.normalized_away == y.normalized_away
    &&& x.final_flow == y.final_flow
}

/// Two snapshots that agree field by field agree on stage, counters and
/// target.
pub proof fn lemma_equal_snapshots_link(a: InteriorPointMaxFlowSnapshot, b: InteriorPointMaxFlowSnapshot)
    requires
        ipm_snapshots_equal(a, b),
    ensures
        snapshots_linked(a, b),
{
    reveal(ipm_snapshots_equal);
}

/// The published state of `e` fits `g`: one more transition, one state per
/// node in position order, one per edge naming that edge, and every final
/// flow within its edge's capacity.
#[verifier::opaque]
pub open spec fn ipm_event_fits(g: FlowNetwork, e: InteriorPointMaxFlowTraceEvent) -> bool {
    &&& e.after.metrics.state_transitions == (if e.before.metrics.state_transitions == u64::MAX { u64::MAX as int } else { e.before.metrics.state_transitions + 1 })
    &&& e.after.nodes@.len() == g.n()
    &&& e.after.edges@.len() == g.m()
    &&& forall|v: int| 0 <= v < g.n() ==> (#[trigger] e.after.nodes@[v]).node@ == v
    &&& forall|k: int| 0 <= k < g.m() ==> (#[trigger] e.after.edges@[k]).edge@ == g.edge_seq()[k].id@
        && (e.after.edges@[k].final_flow matches Some(f) ==> f <= g.edge_seq()[k].capacity)
}

fn same_node_states(a: &Vec<InteriorPointNodeState>, b: &Vec<InteriorPointNodeState>) -> (r: bool)
    ensures
        r == (a@.len() == b@.len() && forall|i: int| 0 <= i < a@.len() ==> ipm_node_state_equal(#[trigger] a@[i], b@[i])),
{
    if a.len() != b.len() {
        return false;
    }
    let mut i: usize = 0;
    while i < a.len()
        invariant
            a@.len() == b@.len(),
            i <= a@.len(),
            forall|j: int| 0 <= j < i ==> ipm_node_state_equal(#[trigger] a@[j], b@[j]),
        decreases a@.len() - i,
    {
        let x = &a[i];
        let y = &b[i];
        if x.node.as_usize() != y.node.as_usize() || x.potential != y.potential || x.target_source_side != y.target_source_side {
            return false;
        }
        i = i + 1;
    }
    true
}

fn same_edge_states(a: &Vec<InteriorPointEdgeState>, b: &Vec<InteriorPointEdgeState>) -> (r: bool)
    ensures
        r == (a@.len() == b@.len() && forall|i: int| 0 <= i < a@.len() ==> ipm_edge_state_equal(#[trigger] a@[i], b@[i])),
{
    if a.len() != b.len() {
        return false;
    }
    let mut i: usize = 0;
    while i < a.len()
        invariant
            a@.len() == b@.len(),
            i <= a@.len(),
            forall|j: int| 0 <= j < i ==> ipm_edge_state_equal(#[trigger] a@[j], b@[j]),
        decreases a@.len() - i,
    {
        let x = &a[i];
        let y = &b[i];
        if x.edge.compare(&y.edge) != 0 || x.fractional_flow != y.fractional_flow || x.electrical_current != y.electrical_current
            || x.slack != y.slack || x.measure != y.measure || x.resistance != y.resistance || x.congestion != y.congestion
            || x.normalized_away != y.normalized_away || x.final_flow != y.final_flow {
            return false;
        }
        i = i + 1;
    }
    true
}

fn same_node_list(a: &Vec<NodeIndex>, b: &Vec<NodeIndex>) -> (r: bool)
    ensures
        r == (a@.len() == b@.len() && forall|i: int| 0 <= i < a@.len() ==> (#[trigger] a@[i])@ == b@[i]@),
{
    if a.len() != b.len() {
        return false;
    }
    let mut i: usize = 0;
    while i < a.len()
        invariant
            a@.len() == b@.len(),
            i <= a@.len(),
            forall|j: int| 0 <= j < i ==> (#[trigger] a@[j])@ == b@[j]@,
        decreases a@.len() - i,
    {
        if a[i].as_usize() != b[i].as_usize() {
            return false;
        }
        i = i + 1;
    }
    true
}

fn same_edge_list(a: &Vec<EdgeId>, b: &Vec<EdgeId>) -> (r: bool)
    ensures
        r == (a@.len() == b@.len() && forall|i: int| 0 <= i < a@.len() ==> (#[trigger] a@[i])@ == b@[i]@),
{
    if a.len() != b.len() {
        return false;
    }
    let mut i: usize = 0;
    while i < a.len()
        invariant
            a@.len() == b@.len(),
            i <= a@.len(),
            forall|j: int| 0 <= j < i ==> (#[trigger] a@[j])@ == b@[j]@,
        decreases a@.len() - i,
    {
        if a[i].compare(&b[i]) != 0 {
            return false;
        }
        i = i + 1;
    }
    true
}

/// Two snapshots agree on stage, counters and target: what joins one
/// published boundary to the next.
pub open spec fn snapshots_linked(a: InteriorPointMaxFlowSnapshot, b: InteriorPointMaxFlowSnapshot) -> bool {
    a.stage == b.stage && a.metrics == b.metrics && a.target_value == b.target_value
}

/// Two snapshots agree field by field.
#[verifier::opaque]
pub open spec fn ipm_snapshots_equal(a: InteriorPointMaxFlowSnapshot, b: InteriorPointMaxFlowSnapshot) -> bool {
    &&& a.nodes@.len() == b.nodes@.len()
    &&& forall|i: int| 0 <= i < a.nodes@.len() ==> ipm_node_state_equal(#[trigger] a.nodes@[i], b.nodes@[i])
    &&& a.edges@.len() == b.edges@.len()
    &&& forall|i: int| 0 <= i < a.edges@.len() ==> ipm_edge_state_equal(#[trigger] a.edges@[i], b.edges@[i])
    &&& a.target_value == b.target_value
    &&& a.mu == b.mu && a.duality_gap == b.duality_gap && a.centrality == b.centrality
    &&& a.congestion_l4 == b.congestion_l4 && a.step_size == b.step_size && a.electrical_energy == b.electrical_energy
    &&& a.b_matching_nodes == b.b_matching_nodes && a.b_matching_edges == b.b_matching_edges
    &&& a.working_nodes == b.working_nodes && a.working_edges == b.working_edges
    &&& a.active_working_edge == b.active_working_edge && a.active_pivot_node == b.active_pivot_node
    &&& a.active_pivot_original_nodes@.len() == b.active_pivot_original_nodes@.len()
    &&& forall|i: int| 0 <= i < a.active_pivot_original_nodes@.len() ==> (#[trigger] a.active_pivot_original_nodes@[i])@ == b.active_pivot_original_nodes@[i]@
    &&& a.active_pivot_original_edges@.len() == b.active_pivot_original_edges@.len()
    &&& forall|i: int| 0 <= i < a.active_pivot_original_edges@.len() ==> (#[trigger] a.active_pivot_original_edges@[i])@ == b.active_pivot_original_edges@[i]@
    &&& a.stage == b.stage
    &&& a.metrics == b.metrics
}

/// The state an event must start from: the base for the first event, the
/// previous event's end for every other.
pub open spec fn event_predecessor(trace: InteriorPointMaxFlowTraceResult, i: int) -> InteriorPointMaxFlowSnapshot {
    if i == 0 { trace.base_snapshot } else { trace.events@[i - 1].after }
}

/// What the trace checker accepts: a valid instance; a ready base; a final
/// optimal state equal to the result's, with the same counters; between
/// one and the ceiling of events, each of permitted shape with its stage's
/// identity, fitting the graph and starting exactly where the previous one
/// ended; a last event ending exactly at the final state; one transition
/// counted per event; and a result the independent checker reproduces.
#[verifier::opaque]
pub open spec fn ipm_trace_accepted(g: FlowNetwork, s: NodeIndex, t: NodeIndex, trace: InteriorPointMaxFlowTraceResult) -> bool {
    let count = trace.events@.len();
    &&& ipm_valid(g, s, t)
    &&& ready_snapshot_ok(g, s, t, trace.base_snapshot)
    &&& trace.final_snapshot.stage == InteriorPointMaxFlowStage::Optimal
    &&& ipm_snapshots_equal(trace.final_snapshot, trace.result.final_snapshot)
    &&& trace.final_snapshot.metrics == trace.result.metrics
    &&& 1 <= count <= INTERIOR_POINT_MAX_FLOW_MAX_TRACE_EVENTS
    &&& events_chain_ok(g, trace)
    &&& ipm_snapshots_equal(trace.events@[count - 1].after, trace.final_snapshot)
    &&& count == trace.final_snapshot.metrics.state_transitions
    &&& ipm_terminal_canonical(g, s, t, trace.result)
}

/// Field-by-field equality of two snapshots.
pub fn same_interior_point_snapshot(a: &InteriorPointMaxFlowSnapshot, b: &InteriorPointMaxFlowSnapshot) -> (r: bool)
    ensures
        r ==> a.stage == b.stage && a.metrics == b.metrics && a.target_value == b.target_value,
        r == ipm_snapshots_equal(*a, *b),
{
    proof {
        reveal(ipm_snapshots_equal);
    }
    same_node_states(&a.nodes, &b.nodes) && same_edge_states(&a.edges, &b.edges)
        && a.target_value == b.target_value && a.mu == b.mu && a.duality_gap == b.duality_gap
        && a.centrality == b.centrality && a.congestion_l4 == b.congestion_l4 && a.step_size == b.step_size
        && a.electrical_energy == b.electrical_energy && a.b_matching_nodes == b.b_matching_nodes
        && a.b_matching_edges == b.b_matching_edges && a.working_nodes == b.working_nodes
        && a.working_edges == b.working_edges && a.active_working_edge == b.active_working_edge
        && a.active_pivot_node == b.active_pivot_node
        && same_node_list(&a.active_pivot_original_nodes, &b.active_pivot_original_nodes)
        && same_edge_list(&a.active_pivot_original_edges, &b.active_pivot_original_edges)
        && a.stage == b.stage && a.metrics == b.metrics
}

fn event_fits_graph(graph: &FlowNetwork, event: &InteriorPointMaxFlowTraceEvent) -> (r: bool)
    ensures
        r == ipm_event_fits(*graph, *event),
{
    proof {
        reveal(ipm_event_fits);
    }
    let n = graph.nodes().len();
    let m = graph.edges().len();
    let after = &event.after;
    if after.metrics.state_transitions != saturating_increment(event.before.metrics.state_transitions)
        || after.nodes.len() != n || after.edges.len() != m {
        return false;
    }
    let mut v: usize = 0;
    while v < n
        invariant
            after.nodes@.len() == n,
            n == graph.n(),
            v <= n,
            after == &event.after,
            forall|u: int| 0 <= u < v ==> (#[trigger] after.nodes@[u]).node@ == u,
        decreases n - v,
    {
        if after.nodes[v].node.as_usize() != v {
            proof {
                reveal(ipm_event_fits);
            }
            return false;
        }
        v = v + 1;
    }
    let mut k: usize = 0;
    while k < m
        invariant
            m == graph.m(),
            after.edges@.len() == m,
            k <= m,
            after == &event.after,
            forall|j: int| 0 <= j < k ==> (#[trigger] after.edges@[j]).edge@ == graph.edge_seq()[j].id@
                && (after.edges@[j].final_flow matches Some(f) ==> f <= graph.edge_seq()[j].capacity),
        decreases m - k,
    {
        let state = &after.edges[k];
        let e = &graph.edges()[k];
        if state.edge.compare(e.id()) != 0 {
            proof {
                reveal(ipm_event_fits);
            }
            return false;
        }
        if let Some(flow) = state.final_flow {
            if flow > e.capacity() {
                proof {
                    reveal(ipm_event_fits);
                }
                return false;
            }
        }
        k = k + 1;
    }
    true
}

/// Every event has a permitted shape with its stage's identity, fits the
/// graph, and starts exactly where the previous one ended.
#[verifier::opaque]
pub open spec fn events_chain_ok(g: FlowNetwork, trace: InteriorPointMaxFlowTraceResult) -> bool {
    &&& forall|i: int| 0 <= i < trace.events@.len() ==> event_ok(#[trigger] trace.events@[i])
    &&& forall|i: int| 0 <= i < trace.events@.len() ==> ipm_event_fits(g, #[trigger] trace.events@[i])
    &&& forall|i: int| 0 <= i < trace.events@.len() ==> ipm_snapshots_equal((#[trigger] trace.events@[i]).before, event_predecessor(trace, i))
}

/// Checks every event of a trace against the graph and against the state
/// the previous event reached.
#[verifier::rlimit(40)]
fn check_event_chain(graph: &FlowNetwork, trace: &InteriorPointMaxFlowTraceResult) -> (r: bool)
    ensures
        r == events_chain_ok(*graph, *trace),
        r && trace.events@.len() > 0 ==> snapshots_linked(trace.events@[0].before, trace.base_snapshot),
        r ==> forall|i: int| 0 < i < trace.events@.len() ==> snapshots_linked((#[trigger] trace.events@[i]).before, trace.events@[i - 1].after),
        r ==> forall|i: int| 0 <= i < trace.events@.len() ==> event_ok(#[trigger] trace.events@[i]),
{
    let count = trace.events.len();
    let mut cursor = &trace.base_snapshot;
    let mut i: usize = 0;
    while i < count
        invariant
            count == trace.events@.len(),
            i <= count,
            *cursor == event_predecessor(*trace, i as int),
            forall|j: int| 0 <= j < i ==> event_ok(#[trigger] trace.events@[j]),
            forall|j: int| 0 <= j < i ==> ipm_event_fits(*graph, #[trigger] trace.events@[j]),
            forall|j: int| 0 <= j < i ==> ipm_snapshots_equal((#[trigger] trace.events@[j]).before, event_predecessor(*trace, j)),
            i > 0 ==> snapshots_linked(trace.events@[0].before, trace.base_snapshot),
            forall|j: int| 0 < j < i ==> snapshots_linked((#[trigger] trace.events@[j]).before, trace.events@[j - 1].after),
        decreases count - i,
    {
        let event = &trace.events[i];
        if !same_interior_point_snapshot(&event.before, cursor) || !valid_interior_point_event(event)
            || !event_fits_graph(graph, event) {
            proof {
                reveal(events_chain_ok);
            }
            return false;
        }
        proof {
            lemma_equal_snapshots_link(event.before, *cursor);
        }
        cursor = &event.after;
        i = i + 1;
    }
    proof {
        reveal(events_chain_ok);
    }
    true
}

/// Independently checks every public boundary of a trace and its terminal
/// certificate: the graph's admission, the ready state, a chain of events
/// each permitted and each counting one transition, and a final state that
/// matches the result, whose certificate is checked afresh.
#[verifier::rlimit(40)]
pub fn check_interior_point_max_flow_trace(graph: &FlowNetwork, source: NodeIndex, sink: NodeIndex, trace: &InteriorPointMaxFlowTraceResult) -> (r: Result<(), InteriorPointMaxFlowError>)
    ensures
        r == Err::<(), Ierr>(Ierr::AdmissionLimit) <==> !ipm_admitted(*graph),
        r == Err::<(), Ierr>(Ierr::InvalidTerminals) <==> ipm_admitted(*graph) && !ipm_terminals(*graph, source, sink),
        r == Err::<(), Ierr>(Ierr::GraphRequirement) <==> ipm_admitted(*graph) && ipm_terminals(*graph, source, sink) && !ipm_unit_instance(*graph),
        r is Err ==> r == Err::<(), Ierr>(Ierr::AdmissionLimit) || r == Err::<(), Ierr>(Ierr::InvalidTerminals)
            || r == Err::<(), Ierr>(Ierr::GraphRequirement) || r == Err::<(), Ierr>(Ierr::TraceVerification),
        r is Ok ==> {
            &&& ipm_valid(*graph, source, sink)
            &&& ready_snapshot_ok(*graph, source, sink, trace.base_snapshot)
            &&& ipm_terminal_ok(*graph, source, sink, trace.result)
            &&& trace.final_snapshot.stage == InteriorPointMaxFlowStage::Optimal
            &&& 1 <= trace.events@.len() <= INTERIOR_POINT_MAX_FLOW_MAX_TRACE_EVENTS
            &&& trace.events@.len() == trace.final_snapshot.metrics.state_transitions
            &&& forall|i: int| 0 <= i < trace.events@.len() ==> event_ok(#[trigger] trace.events@[i])
            &&& snapshots_linked(trace.events@[0].before, trace.base_snapshot)
            &&& forall|i: int| 0 < i < trace.events@.len() ==> snapshots_linked((#[trigger] trace.events@[i]).before, trace.events@[i - 1].after)
            &&& snapshots_linked(trace.events@[trace.events@.len() - 1].after, trace.final_snapshot)
        },
        r is Ok <==> ipm_trace_accepted(*graph, source, sink, *trace),
{
    proof {
        reveal(ipm_trace_accepted);
    }
    validate_interior_point_graph(graph, source, sink)?;
    let count = trace.events.len();
    if !valid_interior_point_base(graph, source, sink, &trace.base_snapshot)
        || trace.final_snapshot.stage != InteriorPointMaxFlowStage::Optimal
        || !same_interior_point_snapshot(&trace.final_snapshot, &trace.result.final_snapshot)
        || trace.final_snapshot.metrics != trace.result.metrics
        || count == 0 || count > INTERIOR_POINT_MAX_FLOW_MAX_TRACE_EVENTS {
        return Err(Ierr::TraceVerification);
    }
    if !check_event_chain(graph, trace) {
        return Err(Ierr::TraceVerification);
    }
    let last = &trace.events[count - 1];
    if !same_interior_point_snapshot(&last.after, &trace.final_snapshot)
        || count as u64 != trace.final_snapshot.metrics.state_transitions {
        return Err(Ierr::TraceVerification);
    }
    proof {
        lemma_equal_snapshots_link(last.after, trace.final_snapshot);
    }
    let verdict = match validate_interior_point_terminal(graph, source, sink, &trace.result) {
        Ok(()) => Ok(()),
        Err(_) => Err(Ierr::TraceVerification),
    };
    verdict
}

} // verus!
