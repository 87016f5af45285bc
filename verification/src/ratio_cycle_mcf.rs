//! The exact, integral scaffold of the bounded minimum-ratio-cycle
//! min-cost-flow progress primitive.
//!
//! The primitive takes one source-scaled step of an alpha-power potential
//! method on a tiny network.  Before any potential is evaluated it needs the
//! network's exact feasible face: the admission rules, every bounded integral
//! flow with the required divergences, the coordinates that every such flow
//! fixes, and the exact optimum cost.  That scaffold is exact and lives here;
//! the potential, gradients, lengths and step are floating-point quantities
//! of the potential method and are not part of this library.
use vstd::prelude::*;

use crate::certificate::{copy_flows, divergences, wide};
use crate::feasibility::{FeasibilityError, FeasibilityExecution, FeasibilityUse};
use crate::flows::{cost_prefix, feasible_flow, flow_cost, ints};
use crate::model::FlowNetwork;

verus! {

/// Node ceiling of the bounded primitive.
pub const MINIMUM_RATIO_CYCLE_MCF_MAX_NODES: usize = 6;
/// Edge ceiling of the bounded primitive.
pub const MINIMUM_RATIO_CYCLE_MCF_MAX_EDGES: usize = 8;
/// Capacity ceiling of every edge.
pub const MINIMUM_RATIO_CYCLE_MCF_MAX_CAPACITY: u64 = 8;
/// Absolute cost ceiling of every edge.
pub const MINIMUM_RATIO_CYCLE_MCF_MAX_COST: u64 = 32;
/// Ceiling on the integral assignments the feasible-face enumeration visits.
pub const MINIMUM_RATIO_CYCLE_MCF_MAX_ENUMERATED_ASSIGNMENTS: u64 = 100_000;
/// Ceiling on the sign vectors the cycle oracle inspects.
pub const MINIMUM_RATIO_CYCLE_MCF_MAX_ENUMERATED_VECTORS: u64 = 6_561;
/// Ceiling on the DFS oracle's edge expansions.
pub const MINIMUM_RATIO_CYCLE_MCF_MAX_DFS_EXPANSIONS: u64 = 500_000;
/// Ceiling on published trace boundaries.
pub const MINIMUM_RATIO_CYCLE_MCF_MAX_TRACE_EVENTS: usize = 8_192;

/// One source or bounded-audit publication boundary.
#[derive(Clone, Copy, Debug, Eq, PartialEq, Structural)]
pub enum MinimumRatioCycleMcfStage {
    /// Valid input before exact face construction.
    Ready,
    /// Bounded integer feasible flows and the exact optimum value were found.
    EnumerateFeasibleSet,
    /// Coordinates fixed throughout the feasible affine face were contracted.
    ContractFixedFace,
    /// The average feasible flow installed a strict relative-interior point.
    InitializeStrictInterior,
    /// The source alpha-power potential was evaluated.
    EvaluatePotential,
    /// Source gradient and length vectors were evaluated.
    MapGradientLength,
    /// A deterministic active-edge spanning forest was built.
    BuildSpanningForest,
    /// One geometrically spaced active-edge sign vector is being inspected.
    InspectVector,
    /// One signed simple-cycle ratio was evaluated.
    EvaluateCycle,
    /// The exact incumbent direction changed.
    UpdateBest,
    /// The selected vector passed incidence conservation checks.
    VerifyCycleSpace,
    /// The source-scaled circulation step was applied.
    ApplySourceStep,
    /// The source potential-decrease inequality was checked.
    MeasurePotentialDecrease,
    /// An independent DFS cycle oracle agreed with the visible oracle.
    CheckDfsOracle,
    /// The progress primitive is complete; no terminal claim is made.
    Complete,
}

/// Exact bounded work counters.
#[derive(Clone, Copy, Debug, Eq, PartialEq, Structural)]
pub struct MinimumRatioCycleMcfMetrics {
    /// Integer assignments inspected while constructing the feasible face.
    pub enumerated_assignments: u64,
    /// Feasible integer flows retained.
    pub feasible_flows: u64,
    /// Active-edge scans used to build and root the forest.
    pub forest_edge_scans: u64,
    /// Active cycle-space dimension `m - n + components`.
    pub fundamental_cycles: u64,
    /// Ternary vectors inspected by the visible oracle.
    pub enumerated_vectors: u64,
    /// Connected degree-two circulations evaluated.
    pub simple_cycles: u64,
    /// Ratio comparisons.
    pub ratio_comparisons: u64,
    /// Incumbent changes.
    pub best_updates: u64,
    /// Independent DFS edge expansions.
    pub dfs_expansions: u64,
    /// Applied source progress steps, either zero or one.
    pub source_steps: u64,
    /// Independent cycle and potential checks.
    pub certificate_checks: u64,
    /// Public state transitions.
    pub state_transitions: u64,
}

impl MinimumRatioCycleMcfMetrics {
    /// Every counter at zero.
    pub open spec fn zero_spec() -> MinimumRatioCycleMcfMetrics {
        MinimumRatioCycleMcfMetrics {
            enumerated_assignments: 0,
            feasible_flows: 0,
            forest_edge_scans: 0,
            fundamental_cycles: 0,
            enumerated_vectors: 0,
            simple_cycles: 0,
            ratio_comparisons: 0,
            best_updates: 0,
            dfs_expansions: 0,
            source_steps: 0,
            certificate_checks: 0,
            state_transitions: 0,
        }
    }
}

impl Default for MinimumRatioCycleMcfMetrics {
    fn default() -> (r: MinimumRatioCycleMcfMetrics)
        ensures
            r == MinimumRatioCycleMcfMetrics::zero_spec(),
    {
        MinimumRatioCycleMcfMetrics {
            enumerated_assignments: 0,
            feasible_flows: 0,
            forest_edge_scans: 0,
            fundamental_cycles: 0,
            enumerated_vectors: 0,
            simple_cycles: 0,
            ratio_comparisons: 0,
            best_updates: 0,
            dfs_expansions: 0,
            source_steps: 0,
            certificate_checks: 0,
            state_transitions: 0,
        }
    }
}

/// Admission, feasibility, source-invariant, or replay failure.
#[derive(Clone, Debug, Eq, PartialEq)]
pub enum MinimumRatioCycleMcfError {
    /// Input exceeds the declared bounded research band.
    AdmissionLimit,
    /// Requested divergence is malformed.
    InvalidDivergence,
    /// The bounded exact feasible-set scaffold found no flow.
    Feasibility(FeasibilityError),
    /// A finite source potential, gradient, length, ratio, or step invariant failed.
    NumericalFailure,
    /// The selected signed vector was not a simple circulation.
    CycleInvariant,
    /// The source step did not satisfy its feasibility or decrease guarantee.
    ProgressInvariant,
    /// The independent DFS oracle selected a different cycle.
    OracleDisagreement,
    /// Checked integer arithmetic overflowed.
    ArithmeticOverflow,
    /// A deterministic work budget was exhausted.
    WorkLimit,
    /// Trace state differs from a full re-execution.
    TraceVerification,
}

type Merr = MinimumRatioCycleMcfError;

/// The text of the event identity of `stage`.
pub open spec fn stage_catalog_text(stage: MinimumRatioCycleMcfStage) -> Seq<char> {
    match stage {
        MinimumRatioCycleMcfStage::Ready => "minimum-ratio-cycle-mcf.ready"@,
        MinimumRatioCycleMcfStage::EnumerateFeasibleSet => "minimum-ratio-cycle-mcf.enumerate-feasible-set"@,
        MinimumRatioCycleMcfStage::ContractFixedFace => "minimum-ratio-cycle-mcf.contract-fixed-face"@,
        MinimumRatioCycleMcfStage::InitializeStrictInterior => "minimum-ratio-cycle-mcf.initialize-strict-interior"@,
        MinimumRatioCycleMcfStage::EvaluatePotential => "minimum-ratio-cycle-mcf.evaluate-potential"@,
        MinimumRatioCycleMcfStage::MapGradientLength => "minimum-ratio-cycle-mcf.map-gradient-length"@,
        MinimumRatioCycleMcfStage::BuildSpanningForest => "minimum-ratio-cycle-mcf.build-spanning-forest"@,
        MinimumRatioCycleMcfStage::InspectVector => "minimum-ratio-cycle-mcf.inspect-vector-checkpoint"@,
        MinimumRatioCycleMcfStage::EvaluateCycle => "minimum-ratio-cycle-mcf.evaluate-cycle"@,
        MinimumRatioCycleMcfStage::UpdateBest => "minimum-ratio-cycle-mcf.update-best"@,
        MinimumRatioCycleMcfStage::VerifyCycleSpace => "minimum-ratio-cycle-mcf.verify-cycle-space"@,
        MinimumRatioCycleMcfStage::ApplySourceStep => "minimum-ratio-cycle-mcf.apply-source-step"@,
        MinimumRatioCycleMcfStage::MeasurePotentialDecrease => "minimum-ratio-cycle-mcf.measure-potential-decrease"@,
        MinimumRatioCycleMcfStage::CheckDfsOracle => "minimum-ratio-cycle-mcf.check-dfs-oracle"@,
        MinimumRatioCycleMcfStage::Complete => "minimum-ratio-cycle-mcf.complete-primitive"@,
    }
}

/// The stable event identity published for entering `stage`.
pub fn trace_stage_catalog_id(stage: MinimumRatioCycleMcfStage) -> (r: &'static str)
    ensures
        r@ == stage_catalog_text(stage),
{
    match stage {
        MinimumRatioCycleMcfStage::Ready => "minimum-ratio-cycle-mcf.ready",
        MinimumRatioCycleMcfStage::EnumerateFeasibleSet => "minimum-ratio-cycle-mcf.enumerate-feasible-set",
        MinimumRatioCycleMcfStage::ContractFixedFace => "minimum-ratio-cycle-mcf.contract-fixed-face",
        MinimumRatioCycleMcfStage::InitializeStrictInterior => "minimum-ratio-cycle-mcf.initialize-strict-interior",
        MinimumRatioCycleMcfStage::EvaluatePotential => "minimum-ratio-cycle-mcf.evaluate-potential",
        MinimumRatioCycleMcfStage::MapGradientLength => "minimum-ratio-cycle-mcf.map-gradient-length",
        MinimumRatioCycleMcfStage::BuildSpanningForest => "minimum-ratio-cycle-mcf.build-spanning-forest",
        MinimumRatioCycleMcfStage::InspectVector => "minimum-ratio-cycle-mcf.inspect-vector-checkpoint",
        MinimumRatioCycleMcfStage::EvaluateCycle => "minimum-ratio-cycle-mcf.evaluate-cycle",
        MinimumRatioCycleMcfStage::UpdateBest => "minimum-ratio-cycle-mcf.update-best",
        MinimumRatioCycleMcfStage::VerifyCycleSpace => "minimum-ratio-cycle-mcf.verify-cycle-space",
        MinimumRatioCycleMcfStage::ApplySourceStep => "minimum-ratio-cycle-mcf.apply-source-step",
        MinimumRatioCycleMcfStage::MeasurePotentialDecrease => "minimum-ratio-cycle-mcf.measure-potential-decrease",
        MinimumRatioCycleMcfStage::CheckDfsOracle => "minimum-ratio-cycle-mcf.check-dfs-oracle",
        MinimumRatioCycleMcfStage::Complete => "minimum-ratio-cycle-mcf.complete-primitive",
    }
}

/// Every edge within the capacity and cost bands, and no self-loop.
pub open spec fn mcf_edges_admitted(g: FlowNetwork) -> bool {
    forall|k: int| 0 <= k < g.m() ==> {
        let e = #[trigger] g.edge_seq()[k];
        &&& e.capacity <= MINIMUM_RATIO_CYCLE_MCF_MAX_CAPACITY
        &&& -(MINIMUM_RATIO_CYCLE_MCF_MAX_COST as int) <= e.cost <= MINIMUM_RATIO_CYCLE_MCF_MAX_COST
        &&& e.from@ != e.to@
    }
}

/// The size and shape rules: two to six nodes, one to eight edges, one
/// required divergence per node, and every edge within its bands.
pub open spec fn mcf_shape_admitted(g: FlowNetwork, required: Seq<i128>) -> bool {
    &&& 2 <= g.n() <= MINIMUM_RATIO_CYCLE_MCF_MAX_NODES
    &&& 1 <= g.m() <= MINIMUM_RATIO_CYCLE_MCF_MAX_EDGES
    &&& required.len() == g.n()
    &&& mcf_edges_admitted(g)
}

/// Sum of the first `k` required divergences.
pub open spec fn required_prefix(required: Seq<i128>, k: int) -> int
    decreases k,
{
    if k <= 0 { 0 } else { required_prefix(required, k - 1) + required[k - 1] }
}

/// The required divergences sum to zero, every partial sum in `i128`.
pub open spec fn divergence_balanced(required: Seq<i128>) -> bool {
    &&& forall|k: int| 0 <= k <= required.len() ==> i128::MIN <= #[trigger] required_prefix(required, k) <= i128::MAX
    &&& required_prefix(required, required.len() as int) == 0
}

/// Number of integral assignments of the edges from `k` on within their bounds.
pub open spec fn assignment_count(g: FlowNetwork, k: int) -> nat
    decreases g.m() - k,
{
    if k < 0 || k >= g.m() {
        1
    } else {
        (g.edge_seq()[k].capacity - g.edge_seq()[k].lower + 1) as nat * assignment_count(g, k + 1)
    }
}

/// Everything the primitive asks of its input.
pub open spec fn mcf_admitted(g: FlowNetwork, required: Seq<i128>) -> bool {
    &&& mcf_shape_admitted(g, required)
    &&& divergence_balanced(required)
    &&& assignment_count(g, 0) <= MINIMUM_RATIO_CYCLE_MCF_MAX_ENUMERATED_ASSIGNMENTS
}

proof fn lemma_assignment_count_bound(g: FlowNetwork, k: int)
    requires
        g.wf(),
        mcf_edges_admitted(g),
        g.m() <= MINIMUM_RATIO_CYCLE_MCF_MAX_EDGES,
        0 <= k <= g.m(),
    ensures
        1 <= assignment_count(g, k) <= pow9((g.m() - k) as nat),
    decreases g.m() - k,
{
    if k < g.m() {
        lemma_assignment_count_bound(g, k + 1);
        let e = g.edge_seq()[k];
        let f = (e.capacity - e.lower + 1) as nat;
        let rest = assignment_count(g, k + 1);
        assert(1 <= f <= 9);
        assert(f * rest <= 9 * pow9((g.m() - (k + 1)) as nat)) by (nonlinear_arith)
            requires
                1 <= f <= 9,
                rest <= pow9((g.m() - (k + 1)) as nat),
        ;
        assert(1 <= f * rest) by (nonlinear_arith)
            requires
                1 <= f,
                1 <= rest,
        ;
        assert(pow9((g.m() - k) as nat) == 9 * pow9((g.m() - (k + 1)) as nat));
    }
}

/// `9^k`.
pub open spec fn pow9(k: nat) -> nat
    decreases k,
{
    if k == 0 { 1 } else { 9 * pow9((k - 1) as nat) }
}

/// Rejects graphs outside the bounded band (`AdmissionLimit`), unbalanced
/// required divergences (`InvalidDivergence`), and assignment spaces larger
/// than the enumeration ceiling (`AdmissionLimit`).
pub fn validate_admission(graph: &FlowNetwork, required: &[i128]) -> (r: Result<(), MinimumRatioCycleMcfError>)
    ensures
        r is Ok <==> mcf_admitted(*graph, required@),
        r == Err::<(), Merr>(Merr::InvalidDivergence) <==> mcf_shape_admitted(*graph, required@) && !divergence_balanced(required@),
        r == Err::<(), Merr>(Merr::AdmissionLimit) <==> !mcf_shape_admitted(*graph, required@)
            || (divergence_balanced(required@) && assignment_count(*graph, 0) > MINIMUM_RATIO_CYCLE_MCF_MAX_ENUMERATED_ASSIGNMENTS),
{
    proof {
        use_type_invariant(graph);
    }
    let n = graph.nodes().len();
    let m = graph.edges().len();
    if n < 2 || n > MINIMUM_RATIO_CYCLE_MCF_MAX_NODES || m == 0 || m > MINIMUM_RATIO_CYCLE_MCF_MAX_EDGES || required.len() != n {
        return Err(Merr::AdmissionLimit);
    }
    let mut k: usize = 0;
    while k < m
        invariant
            m == graph.m(),
            k <= m,
            forall|j: int| 0 <= j < k ==> {
                let e = #[trigger] graph.edge_seq()[j];
                &&& e.capacity <= MINIMUM_RATIO_CYCLE_MCF_MAX_CAPACITY
                &&& -(MINIMUM_RATIO_CYCLE_MCF_MAX_COST as int) <= e.cost <= MINIMUM_RATIO_CYCLE_MCF_MAX_COST
                &&& e.from@ != e.to@
            },
        decreases m - k,
    {
        let e = &graph.edges()[k];
        assert(graph.edge_seq()[k as int] == *e);
        let cost = e.cost();
        if e.capacity() > MINIMUM_RATIO_CYCLE_MCF_MAX_CAPACITY || cost > 32 || cost < -32 || e.from().as_usize() == e.to().as_usize() {
            return Err(Merr::AdmissionLimit);
        }
        k = k + 1;
    }
    let mut sum: i128 = 0;
    let mut i: usize = 0;
    while i < n
        invariant
            n == required@.len(),
            mcf_shape_admitted(*graph, required@),
            i <= n,
            sum == required_prefix(required@, i as int),
            forall|j: int| 0 <= j <= i ==> i128::MIN <= #[trigger] required_prefix(required@, j) <= i128::MAX,
        decreases n - i,
    {
        proof {
            assert(required_prefix(required@, i + 1) == sum + required@[i as int]);
        }
        sum = match sum.checked_add(required[i]) {
            Some(x) => x,
            None => {
                proof {
                    assert(!(i128::MIN <= required_prefix(required@, i + 1) <= i128::MAX));
                }
                return Err(Merr::InvalidDivergence);
            },
        };
        i = i + 1;
    }
    if sum != 0 {
        return Err(Merr::InvalidDivergence);
    }
    proof {
        lemma_assignment_count_bound(*graph, 0);
    }
    let mut count: u64 = 1;
    let mut k: usize = m;
    while k > 0
        invariant
            graph.wf(),
            mcf_edges_admitted(*graph),
            m == graph.m(),
            m <= MINIMUM_RATIO_CYCLE_MCF_MAX_EDGES,
            k <= m,
            count == assignment_count(*graph, k as int),
        decreases k,
    {
        k = k - 1;
        let e = &graph.edges()[k];
        assert(graph.edge_seq()[k as int] == *e);
        let factor = e.capacity() - e.lower() + 1;
        proof {
            lemma_assignment_count_bound(*graph, k + 1);
            lemma_pow9_monotone((m - (k + 1)) as nat, 7);
            assert(pow9(7) == 4782969) by {
                reveal_with_fuel(pow9, 8);
            }
            assert(factor <= 9);
            assert(factor * count <= 9 * 4782969) by (nonlinear_arith)
                requires
                    factor <= 9,
                    count <= 4782969,
            ;
        }
        count = factor * count;
    }
    if count > MINIMUM_RATIO_CYCLE_MCF_MAX_ENUMERATED_ASSIGNMENTS {
        return Err(Merr::AdmissionLimit);
    }
    Ok(())
}

proof fn lemma_pow9_monotone(a: nat, b: nat)
    requires
        a <= b,
    ensures
        pow9(a) <= pow9(b),
    decreases b,
{
    if a < b {
        lemma_pow9_monotone(a, (b - 1) as nat);
    }
}

/// A bounded integral flow meeting the required divergences: a point of the
/// network's integral feasible face.
pub open spec fn face_member(g: FlowNetwork, required: Seq<i128>, x: Seq<u64>) -> bool {
    x.len() == g.m() && feasible_flow(g, ints(x), wide(required))
}

/// The first `index` coordinates of `x` lie within their edges' bounds.
pub open spec fn bounded_prefix(g: FlowNetwork, x: Seq<u64>, index: int) -> bool {
    forall|k: int| 0 <= k < index ==> g.edge_seq()[k].lower <= #[trigger] x[k] <= g.edge_seq()[k].capacity
}

/// `a` comes before `b` in lexicographic order: they agree up to some
/// coordinate, where `a` is smaller.
pub open spec fn lex_before(a: Seq<u64>, b: Seq<u64>) -> bool {
    exists|k: int| 0 <= k < a.len() && k < b.len() && a.take(k) == b.take(k) && #[trigger] a[k] < #[trigger] b[k]
}

/// Positions `from..to` of `list` hold distinct face members that all
/// extend `prefix`, in lexicographic order, and every face member extending
/// `prefix` whose next coordinate lies below `below` is among them.
spec fn block_ok(g: FlowNetwork, required: Seq<i128>, list: Seq<Vec<u64>>, from: int, to: int, prefix: Seq<u64>, below: int) -> bool {
    &&& forall|i: int| from <= i < to ==> face_member(g, required, #[trigger] list[i]@) && list[i]@.take(prefix.len() as int) == prefix
    &&& forall|i: int| from <= i < to ==> (prefix.len() < g.m() ==> (#[trigger] list[i]@)[prefix.len() as int] < below)
    &&& forall|i: int, j: int| from <= i < j < to ==> #[trigger] list[i]@ != #[trigger] list[j]@
    &&& forall|i: int, j: int| from <= i < j < to ==> lex_before(#[trigger] list[i]@, #[trigger] list[j]@)
    &&& forall|x: Seq<u64>| #[trigger] face_member(g, required, x) && x.take(prefix.len() as int) == prefix
        && (prefix.len() < g.m() ==> x[prefix.len() as int] < below)
        ==> exists|i: int| from <= i < to && #[trigger] list[i]@ == x
}

fn same_divergences(d: &Vec<i128>, required: &[i128]) -> (r: bool)
    ensures
        r <==> d@ == required@,
{
    if d.len() != required.len() {
        return false;
    }
    let mut i: usize = 0;
    while i < d.len()
        invariant
            d@.len() == required@.len(),
            i <= d@.len(),
            forall|j: int| 0 <= j < i ==> d@[j] == required@[j],
        decreases d@.len() - i,
    {
        if d[i] != required[i] {
            return false;
        }
        i = i + 1;
    }
    proof {
        assert(d@ =~= required@);
    }
    true
}

/// A block whose next coordinate lies below `v`, followed by the block of
/// the members whose next coordinate is `v`, is the block below `v + 1`.
proof fn lemma_block_extend(g: FlowNetwork, required: Seq<i128>, before: Seq<Vec<u64>>, after: Seq<Vec<u64>>, start: int, prefix: Seq<u64>, v: int)
    requires
        0 <= start <= before.len() <= after.len(),
        prefix.len() < g.m(),
        block_ok(g, required, before, start, before.len() as int, prefix, v),
        after.take(before.len() as int) == before,
        block_ok(g, required, after, before.len() as int, after.len() as int, prefix.push(v as u64), u64::MAX as int + 1),
        0 <= v <= u64::MAX,
    ensures
        block_ok(g, required, after, start, after.len() as int, prefix, v + 1),
{
    let mid = before.len() as int;
    let end = after.len() as int;
    let p = prefix.len() as int;
    assert forall|i: int| start <= i < mid implies after[i] == before[i] by {
        assert(after.take(mid)[i] == before[i]);
    }
    assert forall|i: int| mid <= i < end implies (#[trigger] after[i]@).take(p) == prefix && after[i]@[p] == v by {
        let x = after[i]@;
        assert(x.take(p + 1) == prefix.push(v as u64));
        assert(x.take(p) =~= x.take(p + 1).take(p));
        assert(prefix.push(v as u64).take(p) =~= prefix);
        assert(x[p] == x.take(p + 1)[p]);
    }
    assert forall|i: int| start <= i < end implies face_member(g, required, #[trigger] after[i]@) && after[i]@.take(p) == prefix by {
        if i < mid {
            assert(after[i] == before[i]);
        }
    }
    assert forall|i: int| start <= i < end implies (p < g.m() ==> (#[trigger] after[i]@)[p] < v + 1) by {
        if i < mid {
            assert(after[i] == before[i]);
        }
    }
    assert forall|i: int, j: int| start <= i < j < end implies #[trigger] after[i]@ != #[trigger] after[j]@ by {
        if j < mid {
            assert(after[i] == before[i] && after[j] == before[j]);
        } else if i < mid {
            assert(after[i] == before[i]);
            assert(after[i]@[p] < v);
        }
    }
    assert forall|i: int, j: int| start <= i < j < end implies lex_before(#[trigger] after[i]@, #[trigger] after[j]@) by {
        if j < mid {
            assert(after[i] == before[i] && after[j] == before[j]);
            assert(lex_before(before[i]@, before[j]@));
        } else if i < mid {
            assert(after[i] == before[i]);
            assert(after[i]@[p] < v);
            assert(face_member(g, required, after[i]@) && face_member(g, required, after[j]@));
            assert(after[i]@.take(p) == after[j]@.take(p));
            assert(after[i]@[p] < after[j]@[p]);
        } else {
            assert(lex_before(after[i]@, after[j]@));
        }
    }
    assert forall|x: Seq<u64>| #[trigger] face_member(g, required, x) && x.take(p) == prefix && (p < g.m() ==> x[p] < v + 1)
        implies exists|i: int| start <= i < end && #[trigger] after[i]@ == x by {
        if x[p] < v {
            let i = choose|i: int| start <= i < mid && #[trigger] before[i]@ == x;
            assert(after[i] == before[i]);
        } else {
            assert(x.take(p + 1) =~= prefix.push(v as u64)) by {
                assert forall|k: int| 0 <= k < p implies x.take(p + 1)[k] == prefix[k] by {
                    assert(x.take(p)[k] == prefix[k]);
                }
            }
            assert(x[p] < u64::MAX as int + 1);
        }
    }
}

/// Appends, in lexicographic order, every face member that extends the
/// first `index` coordinates of `current`, counting each assignment visited.
fn enumerate_coordinate(
    graph: &FlowNetwork,
    required: &[i128],
    index: usize,
    current: &mut Vec<u64>,
    feasible: &mut Vec<Vec<u64>>,
    count: &mut u64,
) -> (r: Result<(), MinimumRatioCycleMcfError>)
    requires
        graph.wf(),
        graph.m() <= MINIMUM_RATIO_CYCLE_MCF_MAX_EDGES,
        required@.len() == graph.n(),
        index <= graph.m(),
        old(current)@.len() == graph.m(),
        bounded_prefix(*graph, old(current)@, index as int),
    ensures
        final(current)@.len() == graph.m(),
        final(current)@.take(index as int) == old(current)@.take(index as int),
        r is Ok <==> *old(count) + assignment_count(*graph, index as int) <= u64::MAX,
        r is Err ==> r == Err::<(), Merr>(Merr::ArithmeticOverflow),
        r is Ok ==> *final(count) == *old(count) + assignment_count(*graph, index as int),
        r is Ok ==> final(feasible)@.len() >= old(feasible)@.len()
            && final(feasible)@.take(old(feasible)@.len() as int) == old(feasible)@
            && block_ok(*graph, required@, final(feasible)@, old(feasible)@.len() as int, final(feasible)@.len() as int,
                old(current)@.take(index as int), u64::MAX as int + 1),
    decreases graph.m() - index,
{
    let m = graph.edges().len();
    let ghost prefix = current@.take(index as int);
    let ghost start = feasible@;
    if index == m {
        if *count == u64::MAX {
            return Err(Merr::ArithmeticOverflow);
        }
        *count = *count + 1;
        let d = match divergences(graph, current.as_slice()) {
            Ok(d) => d,
            Err(_) => return Err(Merr::CycleInvariant),
        };
        if same_divergences(&d, required) {
            let copy = copy_flows(current.as_slice());
            feasible.push(copy);
        }
        proof {
            assert(current@.take(index as int) =~= current@);
            let f = ints(current@);
            assert(crate::flows::within_bounds(*graph, f)) by {
                assert forall|k: int| 0 <= k < graph.m() implies graph.edge_seq()[k].lower <= #[trigger] f[k] <= graph.edge_seq()[k].capacity by {
                    assert(f[k] == current@[k]);
                }
            }
            if d@ == required@ {
                assert(face_member(*graph, required@, current@)) by {
                    assert forall|v: int| 0 <= v < graph.n() implies #[trigger] crate::flows::divergence(*graph, f, v) == wide(required@)[v] by {
                        assert(d@[v] == crate::flows::divergence(*graph, f, v));
                    }
                }
                assert(feasible@.take(start.len() as int) =~= start);
            } else {
                assert(!face_member(*graph, required@, current@)) by {
                    if face_member(*graph, required@, current@) {
                        assert(d@ =~= required@) by {
                            assert forall|v: int| 0 <= v < d@.len() implies d@[v] == required@[v] by {
                                assert(crate::flows::divergence(*graph, f, v) == wide(required@)[v]);
                            }
                        }
                    }
                }
                assert(feasible@.take(start.len() as int) =~= start);
            }
            assert forall|x: Seq<u64>| #[trigger] face_member(*graph, required@, x) && x.take(index as int) == prefix
                implies exists|i: int| start.len() <= i < feasible@.len() && #[trigger] feasible@[i]@ == x by {
                assert(x =~= x.take(index as int));
                assert(feasible@[start.len() as int]@ == x);
            }
        }
        return Ok(());
    }
    let e = &graph.edges()[index];
    proof {
        use_type_invariant(graph);
        assert(graph.edge_seq()[index as int] == *e);
    }
    let lo = e.lower();
    let hi = e.capacity();
    let mut v = lo;
    proof {
        assert forall|x: Seq<u64>| #[trigger] face_member(*graph, required@, x) && x.take(index as int) == prefix
            && (index < graph.m() ==> x[index as int] < lo) implies exists|i: int| start.len() <= i < start.len() && #[trigger] feasible@[i]@ == x by {
            assert(ints(x)[index as int] == x[index as int]);
        }
        assert(feasible@.take(start.len() as int) =~= start);
    }
    loop
        invariant_except_break
            lo <= v <= hi,
            *count == *old(count) + (v - lo) * assignment_count(*graph, index + 1),
            block_ok(*graph, required@, feasible@, start.len() as int, feasible@.len() as int, prefix, v as int),
        invariant
            graph.wf(),
            graph.m() <= MINIMUM_RATIO_CYCLE_MCF_MAX_EDGES,
            required@.len() == graph.n(),
            index < graph.m(),
            m == graph.m(),
            lo == graph.edge_seq()[index as int].lower,
            hi == graph.edge_seq()[index as int].capacity,
            lo <= hi,
            prefix == old(current)@.take(index as int),
            current@.len() == graph.m(),
            current@.take(index as int) == prefix,
            bounded_prefix(*graph, current@, index as int),
            feasible@.len() >= start.len(),
            feasible@.take(start.len() as int) == start,
        ensures
            *count == *old(count) + assignment_count(*graph, index as int),
            block_ok(*graph, required@, feasible@, start.len() as int, feasible@.len() as int, prefix, u64::MAX as int + 1),
        decreases hi - v,
    {
        current.set(index, v);
        proof {
            assert(current@.take(index as int) =~= prefix);
            assert(bounded_prefix(*graph, current@, index + 1));
        }
        let ghost before = feasible@;
        let ghost here = current@.take(index + 1);
        let ghost count_before = *count;
        let ghost cur_before = current@;
        proof {
            assert(here =~= prefix.push(v));
        }
        match enumerate_coordinate(graph, required, index + 1, current, feasible, count) {
            Ok(()) => {},
            Err(e) => {
                proof {
                    let a1 = assignment_count(*graph, index + 1);
                    assert((v - lo + 1) * a1 <= (hi - lo + 1) * a1) by (nonlinear_arith)
                        requires
                            v <= hi,
                            lo <= v,
                    ;
                    assert((v - lo) * a1 + a1 == (v - lo + 1) * a1) by (nonlinear_arith);
                }
                return Err(e);
            },
        }
        proof {
            let a1 = assignment_count(*graph, index + 1);
            assert(current@.take(index as int) =~= current@.take(index + 1).take(index as int));
            assert forall|k: int| 0 <= k < index implies graph.edge_seq()[k].lower <= #[trigger] current@[k] <= graph.edge_seq()[k].capacity by {
                assert(current@.take(index + 1)[k] == cur_before.take(index + 1)[k]);
                assert(cur_before[k] == cur_before[k]);
            }
            assert((v - lo) * a1 + a1 == (v + 1 - lo) * a1) by (nonlinear_arith);
            assert(feasible@.take(start.len() as int) =~= start) by {
                assert(feasible@.take(before.len() as int) == before);
                assert forall|i: int| 0 <= i < start.len() implies feasible@[i] == start[i] by {
                    assert(feasible@.take(before.len() as int)[i] == before[i]);
                    assert(before.take(start.len() as int)[i] == start[i]);
                }
            }
            lemma_block_extend(*graph, required@, before, feasible@, start.len() as int, prefix, v as int);
        }
        if v == hi {
            proof {
                assert forall|x: Seq<u64>| #[trigger] face_member(*graph, required@, x) && x.take(index as int) == prefix
                    && (index < graph.m() ==> x[index as int] < u64::MAX as int + 1)
                    implies exists|i: int| start.len() <= i < feasible@.len() && #[trigger] feasible@[i]@ == x by {
                    assert(ints(x)[index as int] == x[index as int]);
                }
            }
            break;
        }
        v = v + 1;
    }
    Ok(())
}

/// Every bounded integral flow of `graph` with the required divergences, in
/// lexicographic order, counting the assignments inspected.  With none, the
/// feasibility precheck reports why.
pub fn enumerate_feasible(
    graph: &FlowNetwork,
    required: &[i128],
    metrics: &mut MinimumRatioCycleMcfMetrics,
    feasibility: &mut FeasibilityExecution,
) -> (r: Result<Vec<Vec<u64>>, MinimumRatioCycleMcfError>)
    requires
        mcf_shape_admitted(*graph, required@),
    ensures
        r == Err::<Vec<Vec<u64>>, Merr>(Merr::ArithmeticOverflow)
            <==> old(metrics).enumerated_assignments + assignment_count(*graph, 0) > u64::MAX,
        old(metrics).enumerated_assignments + assignment_count(*graph, 0) <= u64::MAX ==> {
            ||| r is Ok && exists|x: Seq<u64>| #[trigger] face_member(*graph, required@, x)
            ||| r matches Err(Merr::Feasibility(_)) && forall|x: Seq<u64>| !(#[trigger] face_member(*graph, required@, x))
        },
        r matches Ok(list) ==> {
            &&& list@.len() > 0
            &&& *final(metrics) == (MinimumRatioCycleMcfMetrics {
                    enumerated_assignments: (old(metrics).enumerated_assignments + assignment_count(*graph, 0)) as u64,
                    feasible_flows: list@.len() as u64,
                    ..*old(metrics)
                })
            &&& forall|i: int| 0 <= i < list@.len() ==> face_member(*graph, required@, #[trigger] list@[i]@)
            &&& forall|i: int, j: int| 0 <= i < j < list@.len() ==> #[trigger] list@[i]@ != #[trigger] list@[j]@
            &&& forall|i: int, j: int| 0 <= i < j < list@.len() ==> lex_before(#[trigger] list@[i]@, #[trigger] list@[j]@)
            &&& forall|x: Seq<u64>| #[trigger] face_member(*graph, required@, x) ==> exists|i: int| 0 <= i < list@.len() && #[trigger] list@[i]@ == x
        },
        final(feasibility).recording == old(feasibility).recording,
{
    proof {
        use_type_invariant(graph);
    }
    let m = graph.edges().len();
    let mut current: Vec<u64> = Vec::new();
    let mut k: usize = 0;
    while k < m
        invariant
            m == graph.m(),
            k <= m,
            current@.len() == k,
            forall|j: int| 0 <= j < k ==> #[trigger] current@[j] == graph.edge_seq()[j].lower,
        decreases m - k,
    {
        let e = &graph.edges()[k];
        assert(graph.edge_seq()[k as int] == *e);
        current.push(e.lower());
        k = k + 1;
    }
    let mut feasible: Vec<Vec<u64>> = Vec::new();
    let mut count = metrics.enumerated_assignments;
    match enumerate_coordinate(graph, required, 0, &mut current, &mut feasible, &mut count) {
        Ok(()) => {},
        Err(e) => return Err(e),
    }
    metrics.enumerated_assignments = count;
    proof {
        let empty: Seq<u64> = current@.take(0);
        assert(empty =~= Seq::<u64>::empty());
        assert(feasible@.take(0) =~= Seq::<Vec<u64>>::empty());
        assert forall|x: Seq<u64>| #[trigger] face_member(*graph, required@, x) implies exists|i: int| 0 <= i < feasible@.len() && #[trigger] feasible@[i]@ == x by {
            assert(x.take(0) =~= empty);
            assert(ints(x)[0] == x[0]);
        }
    }
    if feasible.len() == 0 {
        return match feasibility.find_feasible_flow(graph, required, FeasibilityUse::PrecheckOnly) {
            Ok(f) => {
                proof {
                    assert(ints(f@).len() == f@.len());
                    assert(face_member(*graph, required@, f@));
                }
                Err(Merr::NumericalFailure)
            },
            Err(e) => Err(Merr::Feasibility(e)),
        };
    }
    metrics.feasible_flows = feasible.len() as u64;
    proof {
        assert(face_member(*graph, required@, feasible@[0]@));
    }
    Ok(feasible)
}

/// Exact cost of an integral flow.
fn exact_cost(graph: &FlowNetwork, flow: &Vec<u64>) -> (r: Result<i128, MinimumRatioCycleMcfError>)
    requires
        flow@.len() == graph.m(),
    ensures
        r matches Ok(c) ==> c == flow_cost(*graph, ints(flow@)),
        r is Err ==> r == Err::<i128, Merr>(Merr::ArithmeticOverflow),
        (mcf_edges_admitted(*graph) && graph.m() <= MINIMUM_RATIO_CYCLE_MCF_MAX_EDGES
            && forall|k: int| 0 <= k < graph.m() ==> #[trigger] flow@[k] <= graph.edge_seq()[k].capacity) ==> r is Ok,
{
    let m = graph.edges().len();
    let ghost f = ints(flow@);
    let ghost bounded = mcf_edges_admitted(*graph) && graph.m() <= MINIMUM_RATIO_CYCLE_MCF_MAX_EDGES
        && forall|k: int| 0 <= k < graph.m() ==> #[trigger] flow@[k] <= graph.edge_seq()[k].capacity;
    let mut sum: i128 = 0;
    let mut k: usize = 0;
    while k < m
        invariant
            m == graph.m(),
            flow@.len() == m,
            f == ints(flow@),
            k <= m,
            sum == cost_prefix(graph.edge_seq(), f, k as int),
            bounded ==> -(k as int) * 256 <= sum <= (k as int) * 256,
            bounded == (mcf_edges_admitted(*graph) && graph.m() <= MINIMUM_RATIO_CYCLE_MCF_MAX_EDGES
                && forall|j: int| 0 <= j < graph.m() ==> #[trigger] flow@[j] <= graph.edge_seq()[j].capacity),
        decreases m - k,
    {
        let e = &graph.edges()[k];
        assert(graph.edge_seq()[k as int] == *e);
        let x = flow[k] as i128;
        let c = e.cost() as i128;
        assert(f[k as int] == x);
        proof {
            if bounded {
                assert(0 <= x <= 8);
                assert(-32 <= c <= 32);
                assert(-256 <= x * c <= 256) by (nonlinear_arith)
                    requires
                        0 <= x <= 8,
                        -32 <= c <= 32,
                ;
            }
        }
        let term = match x.checked_mul(c) {
            Some(t) => t,
            None => return Err(Merr::ArithmeticOverflow),
        };
        proof {
            assert(term == c * x) by (nonlinear_arith)
                requires
                    term == x * c,
            ;
        }
        sum = match sum.checked_add(term) {
            Some(t) => t,
            None => return Err(Merr::ArithmeticOverflow),
        };
        k = k + 1;
    }
    Ok(sum)
}

/// The exact integral feasible face of an admitted input.
#[derive(Clone, Debug, Eq, PartialEq)]
pub struct MinimumRatioCycleMcfFace {
    /// Every bounded integral flow with the required divergences, in lexicographic order.
    pub feasible: Vec<Vec<u64>>,
    /// Whether every such flow takes the same value on the edge.
    pub fixed: Vec<bool>,
    /// The least exact cost over the face.
    pub optimum_cost: i128,
    /// Work counters after the enumeration.
    pub metrics: MinimumRatioCycleMcfMetrics,
}

/// Builds the exact feasible face: admission, the enumeration of every
/// bounded integral flow with the required divergences, the coordinates
/// that every such flow fixes, and the exact optimum cost.
pub fn exact_feasible_face(graph: &FlowNetwork, required: &[i128], feasibility: &mut FeasibilityExecution) -> (r: Result<MinimumRatioCycleMcfFace, MinimumRatioCycleMcfError>)
    ensures
        r == Err::<MinimumRatioCycleMcfFace, Merr>(Merr::InvalidDivergence) <==> mcf_shape_admitted(*graph, required@) && !divergence_balanced(required@),
        r == Err::<MinimumRatioCycleMcfFace, Merr>(Merr::AdmissionLimit) <==> !mcf_shape_admitted(*graph, required@)
            || (divergence_balanced(required@) && assignment_count(*graph, 0) > MINIMUM_RATIO_CYCLE_MCF_MAX_ENUMERATED_ASSIGNMENTS),
        mcf_admitted(*graph, required@) ==> {
            ||| r is Ok && exists|x: Seq<u64>| #[trigger] face_member(*graph, required@, x)
            ||| r matches Err(Merr::Feasibility(_)) && forall|x: Seq<u64>| !(#[trigger] face_member(*graph, required@, x))
        },
        r matches Ok(face) ==> {
            let list = face.feasible@;
            &&& list.len() > 0
            &&& face.metrics == (MinimumRatioCycleMcfMetrics {
                    enumerated_assignments: assignment_count(*graph, 0) as u64,
                    feasible_flows: list.len() as u64,
                    ..MinimumRatioCycleMcfMetrics::zero_spec()
                })
            &&& forall|i: int| 0 <= i < list.len() ==> face_member(*graph, required@, #[trigger] list[i]@)
            &&& forall|i: int, j: int| 0 <= i < j < list.len() ==> #[trigger] list[i]@ != #[trigger] list[j]@
            &&& forall|x: Seq<u64>| #[trigger] face_member(*graph, required@, x) ==> exists|i: int| 0 <= i < list.len() && #[trigger] list[i]@ == x
            &&& face.fixed@.len() == graph.m()
            &&& forall|e: int| 0 <= e < graph.m() ==> (#[trigger] face.fixed@[e] <==> forall|i: int| 0 <= i < list.len() ==> #[trigger] list[i]@[e] == list[0]@[e])
            &&& exists|i: int| 0 <= i < list.len() && face.optimum_cost == flow_cost(*graph, ints(#[trigger] list[i]@))
            &&& forall|h: Seq<int>| #[trigger] feasible_flow(*graph, h, wide(required@)) ==> face.optimum_cost <= flow_cost(*graph, h)
        },
        final(feasibility).recording == old(feasibility).recording,
{
    validate_admission(graph, required)?;
    proof {
        use_type_invariant(graph);
        lemma_assignment_count_bound(*graph, 0);
    }
    let mut metrics = MinimumRatioCycleMcfMetrics::default();
    let feasible = enumerate_feasible(graph, required, &mut metrics, feasibility)?;
    let m = graph.edges().len();
    let mut fixed: Vec<bool> = Vec::new();
    let mut e: usize = 0;
    while e < m
        invariant
            m == graph.m(),
            e <= m,
            fixed@.len() == e,
            feasible@.len() > 0,
            forall|i: int| 0 <= i < feasible@.len() ==> face_member(*graph, required@, #[trigger] feasible@[i]@),
            forall|c: int| 0 <= c < e ==> (#[trigger] fixed@[c] <==> forall|i: int| 0 <= i < feasible@.len() ==> #[trigger] feasible@[i]@[c] == feasible@[0]@[c]),
        decreases m - e,
    {
        let mut all = true;
        let mut i: usize = 0;
        while i < feasible.len()
            invariant
                m == graph.m(),
                e < m,
                feasible@.len() > 0,
                forall|j: int| 0 <= j < feasible@.len() ==> face_member(*graph, required@, #[trigger] feasible@[j]@),
                i <= feasible@.len(),
                all <==> forall|j: int| 0 <= j < i ==> #[trigger] feasible@[j]@[e as int] == feasible@[0]@[e as int],
            decreases feasible@.len() - i,
        {
            assert(face_member(*graph, required@, feasible@[i as int]@));
            assert(face_member(*graph, required@, feasible@[0]@));
            if feasible[i][e] != feasible[0][e] {
                all = false;
            }
            i = i + 1;
        }
        fixed.push(all);
        e = e + 1;
    }
    let mut best: Option<i128> = None;
    let ghost mut best_at: int = 0;
    let mut i: usize = 0;
    while i < feasible.len()
        invariant
            graph.wf(),
            mcf_edges_admitted(*graph),
            graph.m() <= MINIMUM_RATIO_CYCLE_MCF_MAX_EDGES,
            i <= feasible@.len(),
            forall|j: int| 0 <= j < feasible@.len() ==> face_member(*graph, required@, #[trigger] feasible@[j]@),
            i == 0 <==> best is None,
            best matches Some(b) ==> 0 <= best_at < i && b == flow_cost(*graph, ints(feasible@[best_at]@))
                && forall|j: int| 0 <= j < i ==> b <= flow_cost(*graph, ints(#[trigger] feasible@[j]@)),
        decreases feasible@.len() - i,
    {
        let x = &feasible[i];
        proof {
            assert(face_member(*graph, required@, feasible@[i as int]@));
            assert forall|k: int| 0 <= k < graph.m() implies #[trigger] x@[k] <= graph.edge_seq()[k].capacity by {
                assert(ints(x@)[k] == x@[k]);
            }
        }
        let c = match exact_cost(graph, x) {
            Ok(c) => c,
            Err(err) => return Err(err),
        };
        let better = match best {
            None => true,
            Some(b) => c < b,
        };
        if better {
            best = Some(c);
            proof {
                best_at = i as int;
            }
        }
        i = i + 1;
    }
    let optimum_cost = match best {
        Some(b) => b,
        None => return Err(Merr::NumericalFailure),
    };
    proof {
        assert forall|h: Seq<int>| #[trigger] feasible_flow(*graph, h, wide(required@)) implies optimum_cost <= flow_cost(*graph, h) by {
            let x = Seq::new(graph.m(), |k: int| h[k] as u64);
            assert(ints(x) =~= h) by {
                assert forall|k: int| 0 <= k < graph.m() implies ints(x)[k] == h[k] by {
                    assert(graph.edge_seq()[k].lower <= h[k] <= graph.edge_seq()[k].capacity);
                }
            }
            assert(face_member(*graph, required@, x));
            let j = choose|j: int| 0 <= j < feasible@.len() && #[trigger] feasible@[j]@ == x;
            assert(optimum_cost <= flow_cost(*graph, ints(feasible@[j]@)));
        }
        assert(optimum_cost == flow_cost(*graph, ints(feasible@[best_at]@)));
    }
    Ok(MinimumRatioCycleMcfFace { feasible, fixed, optimum_cost, metrics })
}

} // verus!
