//! Bounded exact undirected minimum-ratio-cycle primitive.
//!
//! Each original edge is an arbitrary orientation of an undirected edge with
//! gradient `g_e` (its cost) and positive length `l_e` (its capacity). The
//! primitive finds a signed simple cycle `delta` minimizing
//! `g^T delta / sum_e l_e |delta_e|` by examining every ternary edge vector
//! and keeping the connected degree-two circulations; an independent
//! depth-first cycle enumerator checks the selected optimum.
use vstd::prelude::*;

use crate::ids::{same_text, EdgeId};
use vstd::string::StringSliceAdditionalSpecFns;
use crate::model::{FlowNetwork, NodeIndex};
use crate::residual::{count_true, lemma_count_true_bounds, lemma_count_true_set};

verus! {

/// Conservative vertex limit for exhaustive interactive checking.
pub const MINIMUM_RATIO_CYCLE_MAX_NODES: usize = 8;
/// Conservative edge limit; `3^11 = 177147` candidate sign vectors.
pub const MINIMUM_RATIO_CYCLE_MAX_EDGES: usize = 11;
/// Positive source length ceiling.
pub const MINIMUM_RATIO_CYCLE_MAX_LENGTH: u64 = 1_000_000;
/// Absolute source gradient ceiling.
pub const MINIMUM_RATIO_CYCLE_MAX_ABS_GRADIENT: i64 = 1_000_000;
/// Deterministic ceiling on ternary sign vectors.
pub const MINIMUM_RATIO_CYCLE_MAX_ENUMERATED_VECTORS: u64 = 177_147;
/// Deterministic ceiling on the independent DFS edge expansions.
pub const MINIMUM_RATIO_CYCLE_MAX_DFS_EXPANSIONS: u64 = 1_000_000;
/// Trace ceiling, including candidate and best-update boundaries.
pub const MINIMUM_RATIO_CYCLE_MAX_TRACE_EVENTS: usize = 2_048;
/// Every vector up to this code is published.
pub const MINIMUM_RATIO_CYCLE_TRACE_DENSE_VECTOR_PREFIX: u64 = 16;
/// Largest gap between two published vector checkpoints.
pub const MINIMUM_RATIO_CYCLE_TRACE_VECTOR_BLOCK_MAX: u64 = 256;

/// Exact signed ratio with a positive denominator.
#[derive(Clone, Copy, Debug, Eq, PartialEq, Structural)]
pub struct MinimumRatioCycleRational {
    /// Signed numerator.
    pub numerator: i128,
    /// Positive denominator.
    pub denominator: u128,
}

/// One signed original edge in the selected circulation.
#[derive(Clone, Debug, Eq, PartialEq)]
pub struct MinimumRatioCycleArc {
    /// Stable original-edge identity.
    pub edge: EdgeId,
    /// `1` follows the stored orientation and `-1` opposes it.
    pub sign: i8,
}

/// Source-level publication boundary.
#[derive(Clone, Copy, Debug, Eq, PartialEq, Structural)]
pub enum MinimumRatioCycleStage {
    /// Valid input, before interpreting gradient and length fields.
    Ready,
    /// `cost -> g` and `capacity -> l` were published.
    MapGradientLength,
    /// A canonical spanning forest and fundamental-cycle count were built.
    BuildSpanningForest,
    /// One geometrically spaced ternary vector is being tested for circulation structure.
    InspectVector,
    /// One exact simple-cycle ratio was evaluated.
    EvaluateCycle,
    /// The incumbent minimum ratio changed.
    UpdateBest,
    /// The selected signed vector passed cycle-space conservation checks.
    VerifyCycleSpace,
    /// The independent DFS cycle oracle agreed.
    CheckExhaustiveOracle,
    /// The primitive certificate is complete; no maximum-flow claim is made.
    Complete,
}

/// One canonical node at a reversible boundary.
#[derive(Clone, Debug, Eq, PartialEq)]
pub struct MinimumRatioCycleNodeState {
    /// Canonical original node.
    pub node: NodeIndex,
    /// Deterministic connected-component ordinal.
    pub component: usize,
    /// Canonical forest parent.
    pub parent: Option<NodeIndex>,
    /// Forest depth.
    pub depth: usize,
    /// Signed incidence balance of the visible candidate.
    pub candidate_balance: i32,
    /// Whether the node belongs to the visible candidate cycle.
    pub on_candidate: bool,
    /// Whether the node belongs to the selected cycle.
    pub on_selected: bool,
}

/// One original edge with source inputs and cycle annotations.
#[derive(Clone, Debug, Eq, PartialEq)]
pub struct MinimumRatioCycleEdgeState {
    /// Stable original edge.
    pub edge: EdgeId,
    /// Source gradient `g_e`, mapped from `cost`.
    pub gradient: i64,
    /// Positive source length `l_e`, mapped from `capacity`.
    pub length: u64,
    /// Membership in the deterministic spanning forest.
    pub tree_edge: bool,
    /// Visible candidate sign in `{-1,0,1}`.
    pub candidate_sign: i8,
    /// Selected optimum sign in `{-1,0,1}`.
    pub selected_sign: i8,
    /// Visible signed contribution `g_e delta_e`.
    pub numerator_contribution: i128,
    /// Visible absolute contribution `l_e |delta_e|`.
    pub denominator_contribution: u128,
}

/// Exact bounded work counters.
#[derive(Clone, Copy, Debug, Default, Eq, PartialEq, Structural)]
pub struct MinimumRatioCycleMetrics {
    /// Edge inspections used to build and root the spanning forest.
    pub forest_edge_scans: u128,
    /// Dimension `m - n + components` of the cycle space.
    pub fundamental_cycles: u64,
    /// Ternary sign vectors inspected by the visible exact oracle.
    pub enumerated_vectors: u64,
    /// Connected degree-two circulations evaluated.
    pub simple_cycles: u64,
    /// Exact ratio comparisons.
    pub ratio_comparisons: u64,
    /// Strict or deterministic tie-breaking incumbent changes.
    pub best_updates: u64,
    /// Independent DFS edge expansions.
    pub dfs_expansions: u64,
    /// Terminal cycle-space and oracle checks.
    pub certificate_checks: u64,
    /// Public state transitions.
    pub state_transitions: u64,
}

/// Complete state at one reversible boundary.
#[derive(Clone, Debug, Eq, PartialEq)]
pub struct MinimumRatioCycleSnapshot {
    /// Canonical node projections.
    pub nodes: Vec<MinimumRatioCycleNodeState>,
    /// Canonical edge projections.
    pub edges: Vec<MinimumRatioCycleEdgeState>,
    /// Current candidate ratio, absent outside candidate inspection.
    pub candidate_ratio: Option<MinimumRatioCycleRational>,
    /// Best ratio found so far, absent for an acyclic graph.
    pub best_ratio: Option<MinimumRatioCycleRational>,
    /// Number of selected cycle edges.
    pub selected_edge_count: usize,
    /// Largest absolute visible incidence imbalance.
    pub maximum_absolute_balance: u32,
    /// Current source-level boundary.
    pub stage: MinimumRatioCycleStage,
    /// Exact bounded work counters.
    pub metrics: MinimumRatioCycleMetrics,
}

/// One reversible primitive transition.
#[derive(Clone, Debug, Eq, PartialEq)]
pub struct MinimumRatioCycleTraceEvent {
    /// Stable revision-owned event identity.
    pub catalog_id: &'static str,
    /// Boundary before the transition.
    pub before: MinimumRatioCycleSnapshot,
    /// Boundary after the transition.
    pub after: MinimumRatioCycleSnapshot,
}

/// Independently checked primitive result.
#[derive(Clone, Debug, Eq, PartialEq)]
pub struct MinimumRatioCycleResult {
    /// Selected signed simple cycle; empty iff the graph is acyclic.
    pub cycle: Vec<MinimumRatioCycleArc>,
    /// Exact optimum ratio; absent iff the graph is acyclic.
    pub ratio: Option<MinimumRatioCycleRational>,
    /// Terminal state.
    pub final_snapshot: MinimumRatioCycleSnapshot,
    /// Exact bounded work counters.
    pub metrics: MinimumRatioCycleMetrics,
}

/// Result plus all reversible search and checking boundaries.
#[derive(Clone, Debug, Eq, PartialEq)]
pub struct MinimumRatioCycleTraceResult {
    /// Same checked result as the fast profile.
    pub result: MinimumRatioCycleResult,
    /// Ready state before input mapping.
    pub base_snapshot: MinimumRatioCycleSnapshot,
    /// Canonical reversible transitions.
    pub events: Vec<MinimumRatioCycleTraceEvent>,
    /// Terminal boundary, equal to `result.final_snapshot`.
    pub final_snapshot: MinimumRatioCycleSnapshot,
}

/// Admission, arithmetic, certificate, or replay failure.
#[derive(Clone, Copy, Debug, Eq, PartialEq, Structural)]
pub enum MinimumRatioCycleError {
    /// Input exceeds the bounded exact interactive band.
    AdmissionLimit,
    /// Input cannot be interpreted as the source undirected ratio instance.
    GraphRequirement,
    /// A checked integer operation overflowed.
    ArithmeticOverflow,
    /// A candidate or selected vector was not a signed simple circulation.
    CycleInvariant,
    /// The visible oracle and independent DFS oracle disagreed.
    OracleDisagreement,
    /// A deterministic work or trace ceiling was reached.
    WorkLimit,
    /// A supplied trace differs from deterministic replay.
    TraceVerification,
}

type Rcerr = MinimumRatioCycleError;

type Ratio = MinimumRatioCycleRational;

/// An error that only a search, its checks, or a trace replay can raise.
pub open spec fn rc_late(e: MinimumRatioCycleError) -> bool {
    e != MinimumRatioCycleError::AdmissionLimit && e != MinimumRatioCycleError::GraphRequirement
}

/// The graph is within the exhaustive band.
pub open spec fn ratio_admitted(g: FlowNetwork) -> bool {
    &&& 2 <= g.n() <= MINIMUM_RATIO_CYCLE_MAX_NODES
    &&& 1 <= g.m() <= MINIMUM_RATIO_CYCLE_MAX_EDGES
}

/// The graph reads as an undirected ratio instance: no supplies, zero lower
/// bounds, positive bounded lengths, bounded gradients, and no self-loops.
pub open spec fn ratio_instance(g: FlowNetwork) -> bool {
    &&& forall|v: int| 0 <= v < g.n() ==> (#[trigger] g.node_seq()[v]).supply == 0
    &&& forall|k: int| 0 <= k < g.m() ==> {
        let e = #[trigger] g.edge_seq()[k];
        &&& e.lower == 0
        &&& 0 < e.capacity <= MINIMUM_RATIO_CYCLE_MAX_LENGTH
        &&& -MINIMUM_RATIO_CYCLE_MAX_ABS_GRADIENT <= e.cost <= MINIMUM_RATIO_CYCLE_MAX_ABS_GRADIENT
        &&& e.from@ != e.to@
    }
}

/// `3^k`.
pub open spec fn pow3(k: nat) -> nat
    decreases k,
{
    if k == 0 { 1 } else { 3 * pow3((k - 1) as nat) }
}

/// Rejections owed before any search: admission first, then the instance.
pub open spec fn ratio_rejection(g: FlowNetwork, r: Result<(), Rcerr>) -> bool {
    &&& (r == Err::<(), Rcerr>(Rcerr::AdmissionLimit) <==> !ratio_admitted(g))
    &&& (r == Err::<(), Rcerr>(Rcerr::GraphRequirement) <==> ratio_admitted(g) && !ratio_instance(g))
    &&& (r is Ok <==> ratio_admitted(g) && ratio_instance(g))
}

fn validate_graph(graph: &FlowNetwork) -> (r: Result<(), Rcerr>)
    ensures
        ratio_rejection(*graph, r),
{
    proof {
        use_type_invariant(graph);
    }
    let n = graph.nodes().len();
    let m = graph.edges().len();
    if n < 2 || n > MINIMUM_RATIO_CYCLE_MAX_NODES || m == 0 || m > MINIMUM_RATIO_CYCLE_MAX_EDGES {
        return Err(Rcerr::AdmissionLimit);
    }
    let mut v: usize = 0;
    while v < n
        invariant
            n == graph.n(),
            m == graph.m(),
            ratio_admitted(*graph),
            v <= n,
            forall|u: int| 0 <= u < v ==> (#[trigger] graph.node_seq()[u]).supply == 0,
        decreases n - v,
    {
        if graph.nodes()[v].supply() != 0 {
            assert(graph.node_seq()[v as int].supply != 0);
            return Err(Rcerr::GraphRequirement);
        }
        v = v + 1;
    }
    let mut k: usize = 0;
    while k < m
        invariant
            m == graph.m(),
            ratio_admitted(*graph),
            forall|u: int| 0 <= u < graph.n() ==> (#[trigger] graph.node_seq()[u]).supply == 0,
            k <= m,
            forall|j: int| 0 <= j < k ==> {
                let e = #[trigger] graph.edge_seq()[j];
                &&& e.lower == 0
                &&& 0 < e.capacity <= MINIMUM_RATIO_CYCLE_MAX_LENGTH
                &&& -MINIMUM_RATIO_CYCLE_MAX_ABS_GRADIENT <= e.cost <= MINIMUM_RATIO_CYCLE_MAX_ABS_GRADIENT
                &&& e.from@ != e.to@
            },
        decreases m - k,
    {
        let e = &graph.edges()[k];
        if e.lower() != 0 || e.capacity() == 0 || e.capacity() > MINIMUM_RATIO_CYCLE_MAX_LENGTH
            || e.cost() < -MINIMUM_RATIO_CYCLE_MAX_ABS_GRADIENT || e.cost() > MINIMUM_RATIO_CYCLE_MAX_ABS_GRADIENT
            || e.from().as_usize() == e.to().as_usize() {
            assert(graph.edge_seq()[k as int] == *e);
            return Err(Rcerr::GraphRequirement);
        }
        k = k + 1;
    }
    Ok(())
}

proof fn lemma_divides_combination(a: int, b: int, q: int, r: int, d: int)
    requires
        d > 0,
        a == b * q + r,
        b % d == 0,
        r % d == 0,
    ensures
        a % d == 0,
{
    vstd::arithmetic::div_mod::lemma_fundamental_div_mod(b, d);
    vstd::arithmetic::div_mod::lemma_fundamental_div_mod(r, d);
    let k = (b / d) * q + r / d;
    assert(a == k * d) by (nonlinear_arith)
        requires
            a == b * q + r,
            b == d * (b / d) + 0,
            r == d * (r / d) + 0,
            k == (b / d) * q + r / d,
    ;
    vstd::arithmetic::div_mod::lemma_mod_multiples_basic(k, d);
}

/// Greatest common divisor, and 1 for two zeros; it divides both.
fn gcd_u128(left: u128, right: u128) -> (r: u128)
    ensures
        r >= 1,
        left % r == 0,
        right % r == 0,
        left != 0 || right != 0 ==> forall|d: int| d > 0 && #[trigger] (left as int % d) == 0 && right as int % d == 0 ==> r as int % d == 0,
{
    let mut a = left;
    let mut b = right;
    while b != 0
        invariant
            forall|d: int| d > 0 && #[trigger] (a as int % d) == 0 && b as int % d == 0 ==> left as int % d == 0 && right as int % d == 0,
            forall|d: int| d > 0 && #[trigger] (left as int % d) == 0 && right as int % d == 0 ==> a as int % d == 0 && b as int % d == 0,
            left != 0 || right != 0 ==> a != 0 || b != 0,
        decreases b,
    {
        let rem = a % b;
        proof {
            assert forall|d: int| d > 0 && #[trigger] (left as int % d) == 0 && right as int % d == 0 implies b as int % d == 0 && rem as int % d == 0 by {
                vstd::arithmetic::div_mod::lemma_fundamental_div_mod(a as int, b as int);
                assert(a as int % d == 0 && b as int % d == 0);
                let q = a as int / b as int;
                assert(rem as int == b as int * (-q) + a as int) by (nonlinear_arith)
                    requires
                        a as int == b as int * q + rem as int,
                ;
                lemma_divides_combination(rem as int, b as int, -q, a as int, d);
            }
            assert forall|d: int| d > 0 && #[trigger] (b as int % d) == 0 && rem as int % d == 0 implies left as int % d == 0 && right as int % d == 0 by {
                vstd::arithmetic::div_mod::lemma_fundamental_div_mod(a as int, b as int);
                lemma_divides_combination(a as int, b as int, a as int / b as int, rem as int, d);
                assert(a as int % d == 0);
            }
        }
        a = b;
        b = rem;
    }
    if a == 0 {
        1
    } else {
        proof {
            vstd::arithmetic::div_mod::lemma_mod_self_0(a as int);
            assert(a as int % a as int == 0);
            assert(0int % a as int == 0);
        }
        a
    }
}

/// A ratio in lowest terms: a positive denominator that shares no factor
/// above one with the numerator.
pub open spec fn lowest_terms(q: Ratio) -> bool {
    &&& q.denominator > 0
    &&& forall|c: int| c > 1 && #[trigger] (q.denominator as int % c) == 0 ==> (if q.numerator < 0 { -q.numerator } else { q.numerator as int }) % c != 0
}

/// Dividing both parts by their greatest common divisor leaves no common
/// factor above one.
proof fn lemma_reduced_parts_coprime(mag: int, den: int, g: int, q: int, d: int, c: int)
    requires
        g >= 1,
        q >= 0,
        d >= 0,
        mag == g * q,
        den == g * d,
        c > 1,
        forall|x: int| x > 0 && #[trigger] (mag % x) == 0 && den % x == 0 ==> g % x == 0,
    ensures
        !(q % c == 0 && d % c == 0),
{
    if q % c == 0 && d % c == 0 {
        vstd::arithmetic::div_mod::lemma_fundamental_div_mod(q, c);
        vstd::arithmetic::div_mod::lemma_fundamental_div_mod(d, c);
        let k1 = q / c;
        let k2 = d / c;
        let gc = g * c;
        assert(gc > g) by (nonlinear_arith)
            requires
                g >= 1,
                c > 1,
                gc == g * c,
        ;
        assert(mag == k1 * gc && den == k2 * gc) by (nonlinear_arith)
            requires
                mag == g * q,
                den == g * d,
                q == c * k1 + 0,
                d == c * k2 + 0,
                gc == g * c,
        ;
        vstd::arithmetic::div_mod::lemma_mod_multiples_basic(k1, gc);
        vstd::arithmetic::div_mod::lemma_mod_multiples_basic(k2, gc);
        assert(mag % gc == 0 && den % gc == 0);
        assert(g % gc == 0);
        vstd::arithmetic::div_mod::lemma_small_mod(g as nat, gc as nat);
    }
}

/// The ratio `numerator / denominator` in lowest terms.
fn rational_new(numerator: i128, denominator: u128) -> (r: Result<Ratio, Rcerr>)
    ensures
        r is Err ==> r == Err::<Ratio, Rcerr>(Rcerr::CycleInvariant) || r == Err::<Ratio, Rcerr>(Rcerr::ArithmeticOverflow),
        denominator > 0 ==> r is Ok,
        r matches Ok(x) ==> x.denominator > 0 && x.denominator <= denominator && x.numerator * denominator == numerator * x.denominator,
        r matches Ok(x) ==> lowest_terms(x),
{
    if denominator == 0 {
        return Err(Rcerr::CycleInvariant);
    }
    let magnitude: u128 = if numerator < 0 {
        if numerator == i128::MIN { 0x8000_0000_0000_0000_0000_0000_0000_0000u128 } else { (-numerator) as u128 }
    } else {
        numerator as u128
    };
    assert(magnitude as int == if numerator < 0 { -numerator } else { numerator as int });
    let divisor = gcd_u128(magnitude, denominator);
    let q = magnitude / divisor;
    let d = denominator / divisor;
    proof {
        vstd::arithmetic::div_mod::lemma_fundamental_div_mod(magnitude as int, divisor as int);
        vstd::arithmetic::div_mod::lemma_fundamental_div_mod(denominator as int, divisor as int);
        assert(q <= magnitude && 0 < d <= denominator && q * denominator == magnitude * d) by (nonlinear_arith)
            requires
                divisor >= 1,
                denominator >= 1,
                magnitude == divisor * q + 0,
                denominator == divisor * d + 0,
                q == magnitude / divisor,
                d == denominator / divisor,
        ;
    }
    let value: i128 = if numerator < 0 {
        if q == 0 { 0 } else { -((q - 1) as i128) - 1 }
    } else {
        q as i128
    };
    proof {
        assert(value == if numerator < 0 { -(q as int) } else { q as int });
        assert(value * denominator == numerator * d) by (nonlinear_arith)
            requires
                value == if numerator < 0 { -(q as int) } else { q as int },
                magnitude as int == if numerator < 0 { -numerator } else { numerator as int },
                q * denominator == magnitude * d,
        ;
        assert forall|c: int| c > 1 && #[trigger] (d as int % c) == 0 implies (if value < 0 { -value } else { value as int }) % c != 0 by {
            if (if value < 0 { -value } else { value as int }) % c == 0 {
                assert((if value < 0 { -value } else { value as int }) == q as int);
                lemma_reduced_parts_coprime(magnitude as int, denominator as int, divisor as int, q as int, d as int, c);
            }
        }
    }
    Ok(MinimumRatioCycleRational { numerator: value, denominator: d })
}

/// `a` is at most `b`, compared exactly by cross multiplication.
pub open spec fn ratio_le(a: Ratio, b: Ratio) -> bool {
    a.numerator * b.denominator <= b.numerator * a.denominator
}

/// Sign of `a - b`: -1, 0 or 1, for positive denominators.
fn rational_order(a: Ratio, b: Ratio) -> (r: Result<i8, Rcerr>)
    ensures
        r is Err ==> r == Err::<i8, Rcerr>(Rcerr::ArithmeticOverflow),
        r matches Ok(o) ==> {
            &&& (o == -1 <==> a.numerator * b.denominator < b.numerator * a.denominator)
            &&& (o == 0 <==> a.numerator * b.denominator == b.numerator * a.denominator)
            &&& (o == 1 <==> a.numerator * b.denominator > b.numerator * a.denominator)
        },
{
    if a.denominator > i128::MAX as u128 || b.denominator > i128::MAX as u128 {
        return Err(Rcerr::ArithmeticOverflow);
    }
    let left = match a.numerator.checked_mul(b.denominator as i128) {
        Some(x) => x,
        None => return Err(Rcerr::ArithmeticOverflow),
    };
    let right = match b.numerator.checked_mul(a.denominator as i128) {
        Some(x) => x,
        None => return Err(Rcerr::ArithmeticOverflow),
    };
    Ok(if left < right { -1 } else if left > right { 1 } else { 0 })
}

/// A signed simple cycle with its exact ratio.
struct Candidate {
    signs: Vec<i8>,
    ratio: Ratio,
}

/// Every entry is -1, 0 or 1.
pub open spec fn signs_ok(s: Seq<i8>) -> bool {
    forall|j: int| 0 <= j < s.len() ==> -1 <= #[trigger] s[j] <= 1
}

/// From position `i` on, `a` comes before `b` lexicographically: at the
/// first position where they differ, or by being shorter.
pub open spec fn signs_precede_from(a: Seq<i8>, b: Seq<i8>, i: int) -> bool
    decreases a.len() - i,
{
    if 0 <= i < a.len() && i < b.len() {
        if a[i] < b[i] {
            true
        } else if a[i] > b[i] {
            false
        } else {
            signs_precede_from(a, b, i + 1)
        }
    } else {
        a.len() < b.len()
    }
}

/// Lexicographic order of equal-length sign vectors.
fn signs_precede(a: &Vec<i8>, b: &Vec<i8>) -> (r: bool)
    ensures
        r == signs_precede_from(a@, b@, 0),
{
    let mut i: usize = 0;
    while i < a.len() && i < b.len()
        invariant
            i <= a@.len(),
            i <= b@.len(),
            signs_precede_from(a@, b@, 0) == signs_precede_from(a@, b@, i as int),
        decreases a@.len() - i,
    {
        if a[i] < b[i] {
            return true;
        }
        if a[i] > b[i] {
            return false;
        }
        i = i + 1;
    }
    a.len() < b.len()
}

fn same_signs(a: &Vec<i8>, b: &Vec<i8>) -> (r: bool)
    ensures
        r <==> a@ == b@,
{
    if a.len() != b.len() {
        return false;
    }
    let mut i: usize = 0;
    while i < a.len()
        invariant
            a@.len() == b@.len(),
            i <= a@.len(),
            forall|j: int| 0 <= j < i ==> a@[j] == b@[j],
        decreases a@.len() - i,
    {
        if a[i] != b[i] {
            return false;
        }
        i = i + 1;
    }
    proof {
        assert(a@ =~= b@);
    }
    true
}

fn copy_signs(s: &Vec<i8>) -> (r: Vec<i8>)
    ensures
        r@ == s@,
{
    let mut out: Vec<i8> = Vec::new();
    let mut i: usize = 0;
    while i < s.len()
        invariant
            i <= s@.len(),
            out@ == s@.take(i as int),
        decreases s@.len() - i,
    {
        out.push(s[i]);
        proof {
            assert(s@.take(i + 1) =~= s@.take(i as int).push(s@[i as int]));
        }
        i = i + 1;
    }
    proof {
        assert(s@.take(i as int) =~= s@);
    }
    out
}

/// Every sign reversed.
fn negated(s: &Vec<i8>) -> (r: Vec<i8>)
    requires
        forall|j: int| 0 <= j < s@.len() ==> -1 <= #[trigger] s@[j] <= 1,
    ensures
        r@.len() == s@.len(),
        forall|j: int| 0 <= j < s@.len() ==> #[trigger] r@[j] == -s@[j],
{
    let mut out: Vec<i8> = Vec::new();
    let mut i: usize = 0;
    while i < s.len()
        invariant
            i <= s@.len(),
            out@.len() == i,
            forall|j: int| 0 <= j < s@.len() ==> -1 <= #[trigger] s@[j] <= 1,
            forall|j: int| 0 <= j < i ==> #[trigger] out@[j] == -s@[j],
        decreases s@.len() - i,
    {
        out.push(-s[i]);
        i = i + 1;
    }
    out
}

fn zero_signs(m: usize) -> (r: Vec<i8>)
    ensures
        r@.len() == m,
        forall|i: int| 0 <= i < m ==> r@[i] == 0,
{
    let mut out: Vec<i8> = Vec::new();
    let mut i: usize = 0;
    while i < m
        invariant
            i <= m,
            out@.len() == i,
            forall|j: int| 0 <= j < i ==> out@[j] == 0,
        decreases m - i,
    {
        out.push(0);
        i = i + 1;
    }
    out
}

/// `|x|`.
pub open spec fn abs_int(x: int) -> int {
    if x < 0 { -x } else { x }
}

/// Signed gradient of the first `k` edges under signs `s`.
pub open spec fn cycle_gradient(g: FlowNetwork, s: Seq<i8>, k: int) -> int
    decreases k,
{
    if k <= 0 { 0 } else { cycle_gradient(g, s, k - 1) + s[k - 1] * g.edge_seq()[k - 1].cost }
}

/// Length of the edges among the first `k` that `s` uses.
pub open spec fn cycle_length(g: FlowNetwork, s: Seq<i8>, k: int) -> int
    decreases k,
{
    if k <= 0 { 0 } else { cycle_length(g, s, k - 1) + if s[k - 1] != 0 { g.edge_seq()[k - 1].capacity as int } else { 0 } }
}

/// Net signed inflow of `v` over the first `k` edges.
pub open spec fn node_net(g: FlowNetwork, s: Seq<i8>, v: int, k: int) -> int
    decreases k,
{
    if k <= 0 {
        0
    } else {
        let e = g.edge_seq()[k - 1];
        node_net(g, s, v, k - 1) + (if e.to@ == v { s[k - 1] as int } else { 0 }) - (if e.from@ == v { s[k - 1] as int } else { 0 })
    }
}

/// Used edges among the first `k` that touch `v`.
pub open spec fn node_degree(g: FlowNetwork, s: Seq<i8>, v: int, k: int) -> int
    decreases k,
{
    if k <= 0 {
        0
    } else {
        let e = g.edge_seq()[k - 1];
        node_degree(g, s, v, k - 1) + if s[k - 1] != 0 { (if e.from@ == v { 1int } else { 0 }) + (if e.to@ == v { 1int } else { 0 }) } else { 0 }
    }
}

/// `side` never separates the two ends of a used edge.
pub open spec fn support_closed(g: FlowNetwork, s: Seq<i8>, side: Seq<bool>) -> bool {
    forall|k: int| 0 <= k < g.m() && s[k] != 0 ==> side[g.edge_seq()[k].from@ as int] == side[#[trigger] g.edge_seq()[k].to@ as int]
}

/// Node `v` is an end of some used edge.
pub open spec fn on_support(g: FlowNetwork, s: Seq<i8>, v: int) -> bool {
    node_degree(g, s, v, g.m() as int) > 0
}

/// The used edges are connected: a node set closed under used edges that
/// holds one of their ends holds all of them.
pub open spec fn support_connected(g: FlowNetwork, s: Seq<i8>) -> bool {
    forall|side: Seq<bool>, w: int| #![trigger support_closed(g, s, side), side[w]]
        side.len() == g.n() && support_closed(g, s, side) && 0 <= w < g.n() && on_support(g, s, w) && side[w]
        ==> forall|v: int| 0 <= v < g.n() && on_support(g, s, v) ==> #[trigger] side[v]
}

/// A signed simple cycle: signs in `{-1, 0, 1}`, some edge used, every node
/// balanced and touched by none or two used edges, the used edges connected.
pub open spec fn signed_simple_cycle(g: FlowNetwork, s: Seq<i8>) -> bool {
    &&& s.len() == g.m()
    &&& signs_ok(s)
    &&& exists|k: int| 0 <= k < g.m() && #[trigger] s[k] != 0
    &&& forall|v: int| 0 <= v < g.n() ==> #[trigger] node_net(g, s, v, g.m() as int) == 0
    &&& forall|v: int| 0 <= v < g.n() ==> #[trigger] node_degree(g, s, v, g.m() as int) == 0 || node_degree(g, s, v, g.m() as int) == 2
    &&& support_connected(g, s)
}

proof fn lemma_degree_monotone(g: FlowNetwork, s: Seq<i8>, v: int, a: int, b: int)
    requires
        0 <= a <= b,
    ensures
        node_degree(g, s, v, a) <= node_degree(g, s, v, b),
    decreases b - a,
{
    if a < b {
        lemma_degree_monotone(g, s, v, a, b - 1);
    }
}

proof fn lemma_length_monotone(g: FlowNetwork, s: Seq<i8>, a: int, b: int)
    requires
        0 <= a <= b <= g.m(),
        ratio_instance(g),
    ensures
        cycle_length(g, s, a) <= cycle_length(g, s, b),
    decreases b - a,
{
    if a < b {
        lemma_length_monotone(g, s, a, b - 1);
    }
}

/// An end of a used edge is on the support, and the used edges have
/// positive total length.
proof fn lemma_used_edge(g: FlowNetwork, s: Seq<i8>, k: int)
    requires
        ratio_instance(g),
        0 <= k < g.m(),
        s[k] != 0,
    ensures
        on_support(g, s, g.edge_seq()[k].from@ as int),
        on_support(g, s, g.edge_seq()[k].to@ as int),
        cycle_length(g, s, g.m() as int) > 0,
{
    let e = g.edge_seq()[k];
    lemma_degree_monotone(g, s, e.from@ as int, k + 1, g.m() as int);
    lemma_degree_monotone(g, s, e.to@ as int, k + 1, g.m() as int);
    lemma_degree_monotone(g, s, e.from@ as int, 0, k);
    lemma_degree_monotone(g, s, e.to@ as int, 0, k);
    lemma_length_monotone(g, s, k + 1, g.m() as int);
    lemma_length_monotone(g, s, 0, k);
}

/// Every node set closed under the used edges puts `u` on the side of `s`.
pub open spec fn linked(g: FlowNetwork, sv: Seq<i8>, s: int, u: int) -> bool {
    forall|side: Seq<bool>| side.len() == g.n() && #[trigger] support_closed(g, sv, side) ==> side[u] == side[s]
}

/// A used edge from a node linked to `s` links its other end too.
proof fn lemma_linked_step(g: FlowNetwork, sv: Seq<i8>, s: int, a: int, b: int, k: int)
    requires
        g.wf(),
        linked(g, sv, s, a),
        0 <= k < g.m(),
        sv[k] != 0,
        (g.edge_seq()[k].from@ == a && g.edge_seq()[k].to@ == b) || (g.edge_seq()[k].to@ == a && g.edge_seq()[k].from@ == b),
    ensures
        linked(g, sv, s, b),
{
    assert forall|side: Seq<bool>| side.len() == g.n() && #[trigger] support_closed(g, sv, side) implies side[b] == side[s] by {
        let e = g.edge_seq()[k];
        assert(side[e.from@ as int] == side[e.to@ as int]);
    }
}

/// The signed simple cycle that `signs` describes, oriented to a
/// nonpositive numerator (and, at zero, to the lexicographically smaller of
/// the two orientations), or `None` when `signs` is not one.  The ratio is
/// exactly minus the absolute signed gradient over the used length.
fn candidate_from_signs(graph: &FlowNetwork, signs: Vec<i8>) -> (r: Result<Option<Candidate>, Rcerr>)
    requires
        ratio_admitted(*graph),
        ratio_instance(*graph),
    ensures
        r matches Ok(Some(c)) ==> c.signs@.len() == graph.m() && signs_ok(c.signs@),
        r matches Ok(Some(c)) ==> {
            let len = cycle_length(*graph, signs@, graph.m() as int);
            &&& len > 0
            &&& c.ratio.denominator > 0
            &&& c.ratio.numerator * len == -abs_int(cycle_gradient(*graph, signs@, graph.m() as int)) * c.ratio.denominator
        },
        r matches Ok(Some(c)) ==> lowest_terms(c.ratio),
        r matches Ok(Some(c)) ==> published_orientation(*graph, c.signs@),
        r matches Ok(Some(c)) ==> signed_simple_cycle(*graph, signs@) && (c.signs@ == signs@ || c.signs@ == reversed_signs(signs@)),
        r matches Ok(None) ==> !signed_simple_cycle(*graph, signs@),
        r is Err ==> r == Err::<Option<Candidate>, Rcerr>(Rcerr::CycleInvariant) || r == Err::<Option<Candidate>, Rcerr>(Rcerr::ArithmeticOverflow),
{
    proof {
        use_type_invariant(graph);
    }
    let n = graph.nodes().len();
    let m = graph.edges().len();
    let ghost g = *graph;
    let ghost sv = signs@;
    if signs.len() != m {
        return Ok(None);
    }
    let mut balance: Vec<i32> = Vec::new();
    let mut degree: Vec<u8> = Vec::new();
    let mut v: usize = 0;
    while v < n
        invariant
            v <= n,
            balance@.len() == v,
            degree@.len() == v,
            forall|u: int| 0 <= u < v ==> balance@[u] == 0 && degree@[u] == 0,
        decreases n - v,
    {
        balance.push(0);
        degree.push(0);
        v = v + 1;
    }
    let mut numerator: i128 = 0;
    let mut denominator: u128 = 0;
    let mut any = false;
    let mut k: usize = 0;
    while k < m
        invariant
            graph.wf(),
            g == *graph,
            sv == signs@,
            ratio_instance(g),
            n == graph.n(),
            m == graph.m(),
            m <= MINIMUM_RATIO_CYCLE_MAX_EDGES,
            signs@.len() == m,
            k <= m,
            balance@.len() == n,
            degree@.len() == n,
            forall|u: int| 0 <= u < n ==> -k <= #[trigger] balance@[u] <= k,
            forall|u: int| 0 <= u < n ==> #[trigger] balance@[u] == node_net(g, sv, u, k as int),
            forall|u: int| 0 <= u < n ==> #[trigger] degree@[u] == node_degree(g, sv, u, k as int),
            forall|u: int| 0 <= u < n ==> #[trigger] degree@[u] <= 2 * k,
            forall|j: int| 0 <= j < k ==> -1 <= #[trigger] signs@[j] <= 1,
            numerator == cycle_gradient(g, sv, k as int),
            denominator == cycle_length(g, sv, k as int),
            -(k as int) * 1_000_000 <= numerator <= (k as int) * 1_000_000,
            0 <= denominator <= (k as int) * 1_000_000,
            any <==> exists|j: int| 0 <= j < k && #[trigger] sv[j] != 0,
        decreases m - k,
    {
        let sign = signs[k];
        let e = &graph.edges()[k];
        assert(graph.edge_seq()[k as int] == *e);
        if sign != 0 {
            if sign != 1 && sign != -1 {
                return Err(Rcerr::CycleInvariant);
            }
            any = true;
            let from = e.from().as_usize();
            let to = e.to().as_usize();
            balance.set(from, balance[from] - sign as i32);
            balance.set(to, balance[to] + sign as i32);
            if degree[from] == u8::MAX {
                return Err(Rcerr::ArithmeticOverflow);
            }
            degree.set(from, degree[from] + 1);
            if degree[to] == u8::MAX {
                return Err(Rcerr::ArithmeticOverflow);
            }
            degree.set(to, degree[to] + 1);
            let c = e.cost() as i128;
            numerator = match numerator.checked_add(if sign == 1 { c } else { -c }) {
                Some(x) => x,
                None => return Err(Rcerr::ArithmeticOverflow),
            };
            denominator = match denominator.checked_add(e.capacity() as u128) {
                Some(x) => x,
                None => return Err(Rcerr::ArithmeticOverflow),
            };
            proof {
                if sign == 1 {
                    assert(sv[k as int] * e.cost == e.cost);
                } else {
                    assert(sv[k as int] * e.cost == -e.cost);
                }
                assert(numerator == cycle_gradient(g, sv, k + 1));
            }
        } else {
            proof {
                assert(sv[k as int] * e.cost == 0);
                assert(numerator == cycle_gradient(g, sv, k + 1));
            }
        }
        proof {
            assert(exists|j: int| 0 <= j < k + 1 && #[trigger] sv[j] != 0 <==> (any));
        }
        k = k + 1;
    }
    if !any {
        return Ok(None);
    }
    let mut start: Option<usize> = None;
    let mut v: usize = 0;
    while v < n
        invariant
            g == *graph,
            sv == signs@,
            n == g.n(),
            m == g.m(),
            v <= n,
            balance@.len() == n,
            degree@.len() == n,
            forall|u: int| 0 <= u < n ==> #[trigger] balance@[u] == node_net(g, sv, u, m as int),
            forall|u: int| 0 <= u < n ==> #[trigger] degree@[u] == node_degree(g, sv, u, m as int),
            start matches Some(x) ==> x < n && degree@[x as int] != 0,
            start is None ==> forall|u: int| 0 <= u < v ==> #[trigger] degree@[u] == 0,
            forall|j: int| 0 <= j < m ==> -1 <= #[trigger] signs@[j] <= 1,
            signs@.len() == m,
            forall|u: int| 0 <= u < v ==> #[trigger] node_net(g, sv, u, m as int) == 0,
            forall|u: int| 0 <= u < v ==> #[trigger] node_degree(g, sv, u, m as int) == 0 || node_degree(g, sv, u, m as int) == 2,
        decreases n - v,
    {
        if balance[v] != 0 || (degree[v] != 0 && degree[v] != 2) {
            proof {
                if signed_simple_cycle(g, sv) {
                    assert(node_net(g, sv, v as int, g.m() as int) == 0);
                    assert(node_degree(g, sv, v as int, g.m() as int) == 0 || node_degree(g, sv, v as int, g.m() as int) == 2);
                }
            }
            return Ok(None);
        }
        if start.is_none() && degree[v] != 0 {
            start = Some(v);
        }
        v = v + 1;
    }
    let s = match start {
        Some(s) => s,
        None => {
            proof {
                let k0 = choose|j: int| 0 <= j < m && #[trigger] sv[j] != 0;
                lemma_used_edge(g, sv, k0);
                let x = g.edge_seq()[k0].from@ as int;
                assert(degree@[x] == 0);
            }
            return Ok(None);
        },
    };
    let mut seen: Vec<bool> = Vec::new();
    let mut v: usize = 0;
    while v < n
        invariant
            v <= n,
            seen@.len() == v,
            forall|u: int| 0 <= u < v ==> !(#[trigger] seen@[u]),
            forall|j: int| 0 <= j < m ==> -1 <= #[trigger] signs@[j] <= 1,
            signs@.len() == m,
        decreases n - v,
    {
        seen.push(false);
        v = v + 1;
    }
    proof {
        lemma_count_true_bounds(seen@, n as int);
        lemma_count_true_set(seen@, s as int, n as int);
    }
    seen.set(s, true);
    let mut stack: Vec<usize> = Vec::new();
    stack.push(s);
    proof {
        assert(stack@[0] == s);
        assert(stack@.contains(s));
        assert(forall|u: int| 0 <= u < n && #[trigger] seen@[u] ==> u == s);
    }
    while stack.len() > 0
        invariant
            graph.wf(),
            g == *graph,
            sv == signs@,
            n == graph.n(),
            m == graph.m(),
            signs@.len() == m,
            forall|j: int| 0 <= j < m ==> -1 <= #[trigger] signs@[j] <= 1,
            n == seen@.len(),
            s < n,
            seen@[s as int],
            forall|j: int| 0 <= j < stack@.len() ==> stack@[j] < n && seen@[stack@[j] as int],
            forall|i: int, j: int| 0 <= i < j < stack@.len() ==> stack@[i] != stack@[j],
            forall|u: int, j: int| #![trigger seen@[u], g.edge_seq()[j]] 0 <= u < n && 0 <= j < m && seen@[u] && !stack@.contains(u as usize) && sv[j] != 0 ==> {
                let e = g.edge_seq()[j];
                &&& e.from@ == u ==> seen@[e.to@ as int]
                &&& e.to@ == u ==> seen@[e.from@ as int]
            },
            forall|u: int| 0 <= u < n && #[trigger] seen@[u] ==> linked(g, sv, s as int, u),
        decreases 2 * (n - count_true(seen@, n as int)) + stack@.len(),
    {
        proof {
            lemma_count_true_bounds(seen@, n as int);
        }
        let ghost measure = 2 * (n - count_true(seen@, n as int)) + stack@.len();
        let ghost before_pop = stack@;
        let node = stack.pop().unwrap();
        proof {
            assert(stack@ == before_pop.drop_last());
            assert(!stack@.contains(node)) by {
                if stack@.contains(node) {
                    let i = choose|i: int| 0 <= i < stack@.len() && stack@[i] == node;
                    assert(before_pop[i] == before_pop[before_pop.len() - 1]);
                }
            }
            assert forall|u: usize| #[trigger] before_pop.contains(u) && u != node implies stack@.contains(u) by {
                let i = choose|i: int| 0 <= i < before_pop.len() && before_pop[i] == u;
                assert(i < before_pop.len() - 1);
                assert(stack@[i] == u);
            }
        }
        let mut k: usize = 0;
        while k < m
            invariant
                graph.wf(),
                g == *graph,
                sv == signs@,
                n == graph.n(),
                m == graph.m(),
                signs@.len() == m,
                n == seen@.len(),
                node < n,
                s < n,
                seen@[s as int],
                seen@[node as int],
                !stack@.contains(node),
                k <= m,
                forall|j: int| 0 <= j < stack@.len() ==> stack@[j] < n && seen@[stack@[j] as int],
                forall|i: int, j: int| 0 <= i < j < stack@.len() ==> stack@[i] != stack@[j],
                2 * (n - count_true(seen@, n as int)) + stack@.len() < measure,
                0 <= count_true(seen@, n as int) <= n,
                forall|u: int, j: int| #![trigger seen@[u], g.edge_seq()[j]] 0 <= u < n && u != node && 0 <= j < m && seen@[u] && !stack@.contains(u as usize) && sv[j] != 0 ==> {
                    let e = g.edge_seq()[j];
                    &&& e.from@ == u ==> seen@[e.to@ as int]
                    &&& e.to@ == u ==> seen@[e.from@ as int]
                },
                forall|j: int| 0 <= j < k && sv[j] != 0 ==> {
                    let e = #[trigger] g.edge_seq()[j];
                    &&& e.from@ == node ==> seen@[e.to@ as int]
                    &&& e.to@ == node ==> seen@[e.from@ as int]
                },
                forall|u: int| 0 <= u < n && #[trigger] seen@[u] ==> linked(g, sv, s as int, u),
            decreases m - k,
        {
            let e = &graph.edges()[k];
            assert(graph.edge_seq()[k as int] == *e);
            if signs[k] != 0 {
                let from = e.from().as_usize();
                let to = e.to().as_usize();
                let next: Option<usize> = if from == node { Some(to) } else if to == node { Some(from) } else { None };
                match next {
                    Some(x) => {
                        if !seen[x] {
                            proof {
                                lemma_count_true_set(seen@, x as int, n as int);
                            }
                            let ghost before_push = stack@;
                            let ghost seen_before = seen@;
                            seen.set(x, true);
                            stack.push(x);
                            proof {
                                lemma_linked_step(g, sv, s as int, node as int, x as int, k as int);
                                assert forall|u: int| 0 <= u < n && #[trigger] seen@[u] implies linked(g, sv, s as int, u) by {
                                    if u != x as int {
                                        assert(seen_before[u]);
                                    }
                                }
                                lemma_count_true_bounds(seen@, n as int);
                                assert(!before_push.contains(x));
                                assert forall|u: usize| !(#[trigger] stack@.contains(u)) implies !before_push.contains(u) by {
                                    if before_push.contains(u) {
                                        let i = choose|i: int| 0 <= i < before_push.len() && before_push[i] == u;
                                        assert(stack@[i] == u);
                                    }
                                }
                                assert(stack@[stack@.len() - 1] == x);
                                assert(stack@.contains(x));
                                assert forall|u: int, j: int| #![trigger seen@[u], g.edge_seq()[j]] 0 <= u < n && u != node && 0 <= j < m && seen@[u] && !stack@.contains(u as usize) && sv[j] != 0 implies {
                                    let e = g.edge_seq()[j];
                                    &&& e.from@ == u ==> seen@[e.to@ as int]
                                    &&& e.to@ == u ==> seen@[e.from@ as int]
                                } by {
                                    assert(u != x as int);
                                    assert(!before_push.contains(u as usize));
                                    assert(seen_before[u]);
                                    let e = g.edge_seq()[j];
                                    if e.from@ == u {
                                        assert(seen_before[e.to@ as int]);
                                    }
                                    if e.to@ == u {
                                        assert(seen_before[e.from@ as int]);
                                    }
                                }
                                assert(!stack@.contains(node)) by {
                                    if stack@.contains(node) {
                                        let i = choose|i: int| 0 <= i < stack@.len() && stack@[i] == node;
                                        if i < before_push.len() {
                                            assert(before_push[i] == node);
                                        }
                                    }
                                }
                            }
                        }
                    },
                    None => {},
                }
            }
            k = k + 1;
        }
    }
    proof {
        assert forall|j: int| 0 <= j < g.m() && sv[j] != 0 implies seen@[g.edge_seq()[j].from@ as int] == seen@[#[trigger] g.edge_seq()[j].to@ as int] by {
            let e = g.edge_seq()[j];
            if seen@[e.from@ as int] {
                assert(!stack@.contains(e.from@ as usize));
            }
            if seen@[e.to@ as int] {
                assert(!stack@.contains(e.to@ as usize));
            }
        }
        assert(support_closed(g, sv, seen@));
    }
    let mut v: usize = 0;
    while v < n
        invariant
            g == *graph,
            sv == signs@,
            n == g.n(),
            m == g.m(),
            v <= n,
            s < n,
            seen@.len() == n,
            seen@[s as int],
            support_closed(g, sv, seen@),
            degree@.len() == n,
            degree@[s as int] != 0,
            forall|u: int| 0 <= u < n ==> #[trigger] degree@[u] == node_degree(g, sv, u, m as int),
            forall|j: int| 0 <= j < m ==> -1 <= #[trigger] signs@[j] <= 1,
            signs@.len() == m,
            forall|u: int| 0 <= u < n && #[trigger] seen@[u] ==> linked(g, sv, s as int, u),
            forall|u: int| 0 <= u < v && node_degree(g, sv, u, m as int) != 0 ==> #[trigger] seen@[u],
        decreases n - v,
    {
        if degree[v] != 0 && !seen[v] {
            proof {
                if signed_simple_cycle(g, sv) {
                    assert(on_support(g, sv, s as int));
                    assert(on_support(g, sv, v as int));
                    assert(support_closed(g, sv, seen@));
                    assert(seen@[s as int]);
                }
            }
            return Ok(None);
        }
        v = v + 1;
    }
    proof {
        let k0 = choose|j: int| 0 <= j < m && #[trigger] sv[j] != 0;
        lemma_used_edge(g, sv, k0);
        assert forall|side: Seq<bool>, w: int| #![trigger support_closed(g, sv, side), side[w]]
            side.len() == g.n() && support_closed(g, sv, side) && 0 <= w < g.n() && on_support(g, sv, w) && side[w]
            implies forall|u: int| 0 <= u < g.n() && on_support(g, sv, u) ==> #[trigger] side[u] by {
            assert(seen@[w]);
            assert(linked(g, sv, s as int, w));
            assert forall|u: int| 0 <= u < g.n() && on_support(g, sv, u) implies #[trigger] side[u] by {
                assert(seen@[u]);
                assert(linked(g, sv, s as int, u));
            }
        }
        assert(signed_simple_cycle(g, sv));
    }
    let mut oriented = signs;
    let ghost gradient = numerator as int;
    proof {
        lemma_reversed_cycle(g, sv);
    }
    if numerator > 0 {
        oriented = negated(&oriented);
        numerator = -numerator;
        proof {
            assert(oriented@ =~= reversed_signs(sv));
        }
    } else if numerator == 0 {
        let reversed = negated(&oriented);
        proof {
            assert(reversed@ =~= reversed_signs(sv));
            assert(reversed_signs(reversed_signs(sv)) =~= sv);
        }
        if signs_precede(&reversed, &oriented) {
            proof {
                lemma_precede_asymmetric(reversed@, sv, 0);
            }
            oriented = reversed;
        }
    }
    proof {
        assert(published_orientation(g, oriented@));
    }
    assert(numerator == -abs_int(gradient));
    let ratio = rational_new(numerator, denominator)?;
    Ok(Some(Candidate { signs: oriented, ratio }))
}

/// The orientation in which a cycle is published: its gradient is not
/// positive, and a cycle of zero gradient is listed in the lexicographically
/// smaller of its two sign vectors.
pub open spec fn published_orientation(g: FlowNetwork, s: Seq<i8>) -> bool {
    &&& cycle_gradient(g, s, g.m() as int) <= 0
    &&& cycle_gradient(g, s, g.m() as int) == 0 ==> !signs_precede_from(reversed_signs(s), s, 0)
}

/// Of two equally long sign vectors, at most one comes first.
proof fn lemma_precede_asymmetric(a: Seq<i8>, b: Seq<i8>, i: int)
    requires
        a.len() == b.len(),
        0 <= i,
        signs_precede_from(a, b, i),
    ensures
        !signs_precede_from(b, a, i),
    decreases a.len() - i,
{
    if i < a.len() && a[i] == b[i] {
        lemma_precede_asymmetric(a, b, i + 1);
    }
}

/// Every sign reversed.
pub open spec fn reversed_signs(s: Seq<i8>) -> Seq<i8> {
    Seq::new(s.len(), |k: int| (-(s[k] as int)) as i8)
}

proof fn lemma_reversed_sums(g: FlowNetwork, s: Seq<i8>, k: int)
    requires
        signs_ok(s),
        0 <= k <= s.len(),
    ensures
        cycle_gradient(g, reversed_signs(s), k) == -cycle_gradient(g, s, k),
        cycle_length(g, reversed_signs(s), k) == cycle_length(g, s, k),
        forall|v: int| #[trigger] node_net(g, reversed_signs(s), v, k) == -node_net(g, s, v, k),
        forall|v: int| #[trigger] node_degree(g, reversed_signs(s), v, k) == node_degree(g, s, v, k),
    decreases k,
{
    if k > 0 {
        lemma_reversed_sums(g, s, k - 1);
        let t = reversed_signs(s);
        assert(-1 <= s[k - 1] <= 1);
        assert(t[k - 1] == -s[k - 1]);
        assert(t[k - 1] * g.edge_seq()[k - 1].cost == -(s[k - 1] * g.edge_seq()[k - 1].cost)) by (nonlinear_arith)
            requires
                t[k - 1] == -s[k - 1],
        ;
        assert forall|v: int| #[trigger] node_net(g, t, v, k) == -node_net(g, s, v, k) by {
            assert(node_net(g, t, v, k - 1) == -node_net(g, s, v, k - 1));
        }
        assert forall|v: int| #[trigger] node_degree(g, t, v, k) == node_degree(g, s, v, k) by {
            assert(node_degree(g, t, v, k - 1) == node_degree(g, s, v, k - 1));
        }
    } else {
        assert forall|v: int| #[trigger] node_net(g, reversed_signs(s), v, k) == -node_net(g, s, v, k) by {}
        assert forall|v: int| #[trigger] node_degree(g, reversed_signs(s), v, k) == node_degree(g, s, v, k) by {}
    }
}

proof fn lemma_leading_sign(s: Seq<i8>, i: int)
    requires
        signs_ok(s),
        0 <= i <= s.len(),
    ensures
        leading_sign(reversed_signs(s), i) == -leading_sign(s, i),
        (exists|k: int| i <= k < s.len() && #[trigger] s[k] != 0) ==> leading_sign(s, i) == 1 || leading_sign(s, i) == -1,
    decreases s.len() - i,
{
    if i < s.len() {
        lemma_leading_sign(s, i + 1);
        assert(reversed_signs(s)[i] == -s[i]);
        if s[i] == 0 {
            if exists|k: int| i <= k < s.len() && #[trigger] s[k] != 0 {
                let k = choose|k: int| i <= k < s.len() && #[trigger] s[k] != 0;
                assert(k != i);
                assert(i + 1 <= k);
            }
        }
    }
}

/// Reversing every sign of a signed simple cycle gives a signed simple cycle
/// with the opposite gradient, the same length, and the opposite leading sign.
proof fn lemma_reversed_cycle(g: FlowNetwork, s: Seq<i8>)
    requires
        signed_simple_cycle(g, s),
    ensures
        signed_simple_cycle(g, reversed_signs(s)),
        cycle_gradient(g, reversed_signs(s), g.m() as int) == -cycle_gradient(g, s, g.m() as int),
        cycle_length(g, reversed_signs(s), g.m() as int) == cycle_length(g, s, g.m() as int),
        leading_sign(reversed_signs(s), 0) == -leading_sign(s, 0),
        leading_sign(s, 0) == 1 || leading_sign(s, 0) == -1,
{
    let t = reversed_signs(s);
    let m = g.m() as int;
    lemma_reversed_sums(g, s, m);
    lemma_leading_sign(s, 0);
    assert(signs_ok(t));
    let k0 = choose|k: int| 0 <= k < m && #[trigger] s[k] != 0;
    assert(t[k0] != 0);
    assert forall|v: int| 0 <= v < g.n() implies #[trigger] node_net(g, t, v, m) == 0 by {
        assert(node_net(g, s, v, m) == 0);
    }
    assert forall|v: int| 0 <= v < g.n() implies #[trigger] node_degree(g, t, v, m) == 0 || node_degree(g, t, v, m) == 2 by {
        assert(node_degree(g, s, v, m) == 0 || node_degree(g, s, v, m) == 2);
    }
    assert forall|side: Seq<bool>, w: int| #![trigger support_closed(g, t, side), side[w]]
        side.len() == g.n() && support_closed(g, t, side) && 0 <= w < g.n() && on_support(g, t, w) && side[w]
        implies forall|v: int| 0 <= v < g.n() && on_support(g, t, v) ==> #[trigger] side[v] by {
        assert forall|k: int| 0 <= k < g.m() && s[k] != 0 implies side[g.edge_seq()[k].from@ as int] == side[#[trigger] g.edge_seq()[k].to@ as int] by {
            assert(t[k] != 0);
        }
        assert(support_closed(g, s, side));
        assert(on_support(g, s, w));
        assert forall|v: int| 0 <= v < g.n() && on_support(g, t, v) implies #[trigger] side[v] by {
            assert(on_support(g, s, v));
        }
    }
}

/// `r` is at most `num / den`, compared exactly.
pub open spec fn ratio_at_most(r: Ratio, num: int, den: int) -> bool {
    r.numerator * den <= num * r.denominator
}

proof fn lemma_ratio_chain(a: Ratio, b: Ratio, num: int, den: int)
    requires
        a.denominator > 0,
        b.denominator > 0,
        den > 0,
        ratio_le(a, b),
        ratio_at_most(b, num, den),
    ensures
        ratio_at_most(a, num, den),
{
    let an = a.numerator as int;
    let ad = a.denominator as int;
    let bn = b.numerator as int;
    let bd = b.denominator as int;
    assert(an * bd * den <= bn * ad * den) by (nonlinear_arith)
        requires
            an * bd <= bn * ad,
            den > 0,
    ;
    assert(bn * den * ad <= num * bd * ad) by (nonlinear_arith)
        requires
            bn * den <= num * bd,
            ad > 0,
    ;
    assert(an * den <= num * ad) by (nonlinear_arith)
        requires
            an * bd * den <= bn * ad * den,
            bn * den * ad <= num * bd * ad,
            bd > 0,
    ;
}

/// `q` is a ratio at most that of every signed simple cycle of `g`: minus
/// its absolute gradient over its length.  With no such cycle, any `q` is.
pub open spec fn ratio_minimal(g: FlowNetwork, q: Option<Ratio>) -> bool {
    forall|s: Seq<i8>| #[trigger] signed_simple_cycle(g, s) ==> (q matches Some(r) && r.denominator > 0
        && ratio_at_most(r, -abs_int(cycle_gradient(g, s, g.m() as int)), cycle_length(g, s, g.m() as int)))
}

spec fn incumbent_ratio(best: Option<Candidate>) -> Option<Ratio> {
    match best {
        Some(b) => Some(b.ratio),
        None => None,
    }
}

/// Every signed simple cycle that starts forward and whose code is below
/// `code` is bounded by the incumbent's ratio.
spec fn bounds_cycles_below(g: FlowNetwork, best: Option<Candidate>, code: int) -> bool {
    forall|s: Seq<i8>| #[trigger] signed_simple_cycle(g, s) && leading_sign(s, 0) == 1 && ternary_code(s, 0) < code
        ==> (best matches Some(b) && ratio_at_most(b.ratio, -abs_int(cycle_gradient(g, s, g.m() as int)), cycle_length(g, s, g.m() as int)))
}

/// The vector that decodes from `code` is the only sign vector with that code.
spec fn decodes_from(g: FlowNetwork, sv: Seq<i8>, code: int) -> bool {
    forall|s: Seq<i8>| s.len() == g.m() && signs_ok(s) && #[trigger] ternary_code(s, 0) == code ==> sv == s
}

proof fn lemma_cycle_length_positive(g: FlowNetwork, s: Seq<i8>)
    requires
        ratio_instance(g),
        signed_simple_cycle(g, s),
    ensures
        cycle_length(g, s, g.m() as int) > 0,
{
    let k = choose|k: int| 0 <= k < g.m() && #[trigger] s[k] != 0;
    lemma_used_edge(g, s, k);
}

proof fn lemma_leading_code(s: Seq<i8>, i: int)
    requires
        signs_ok(s),
        0 <= i <= s.len(),
        leading_sign(s, i) != 0,
    ensures
        ternary_code(s, i) >= 1,
    decreases s.len() - i,
{
    if i < s.len() {
        lemma_code_below_power(s, i + 1);
        if s[i] == 0 {
            lemma_leading_code(s, i + 1);
        }
    }
}

/// No signed simple cycle starting forward has code 0.
proof fn lemma_bounds_start(g: FlowNetwork, best: Option<Candidate>)
    ensures
        bounds_cycles_below(g, best, 1),
{
    assert forall|s: Seq<i8>| #[trigger] signed_simple_cycle(g, s) && leading_sign(s, 0) == 1 implies ternary_code(s, 0) >= 1 by {
        lemma_leading_code(s, 0);
    }
}

/// A code whose vector is no forward-starting signed simple cycle adds nothing.
proof fn lemma_bounds_skip(g: FlowNetwork, best: Option<Candidate>, code: int, sv: Seq<i8>)
    requires
        bounds_cycles_below(g, best, code),
        decodes_from(g, sv, code),
        !(signed_simple_cycle(g, sv) && leading_sign(sv, 0) == 1),
    ensures
        bounds_cycles_below(g, best, code + 1),
{
    assert forall|s: Seq<i8>| #[trigger] signed_simple_cycle(g, s) && leading_sign(s, 0) == 1 && ternary_code(s, 0) < code + 1
        implies (best matches Some(b) && ratio_at_most(b.ratio, -abs_int(cycle_gradient(g, s, g.m() as int)), cycle_length(g, s, g.m() as int))) by {
        if ternary_code(s, 0) == code {
            assert(sv == s);
        }
    }
}

/// After a cycle's ratio `c` is weighed against the incumbent, the new
/// incumbent bounds it and everything the old one bounded.
proof fn lemma_bounds_keep(g: FlowNetwork, old_best: Option<Candidate>, new_best: Option<Candidate>, code: int, sv: Seq<i8>, c: Ratio)
    requires
        ratio_instance(g),
        bounds_cycles_below(g, old_best, code),
        decodes_from(g, sv, code),
        c.denominator > 0,
        cycle_length(g, sv, g.m() as int) > 0,
        c.numerator * cycle_length(g, sv, g.m() as int) == -abs_int(cycle_gradient(g, sv, g.m() as int)) * c.denominator,
        new_best matches Some(nb) && nb.ratio.denominator > 0 && ratio_le(nb.ratio, c),
        old_best matches Some(ob) ==> ob.ratio.denominator > 0 && ratio_le(new_best->0.ratio, ob.ratio),
    ensures
        bounds_cycles_below(g, new_best, code + 1),
{
    let nb = new_best->0;
    assert forall|s: Seq<i8>| #[trigger] signed_simple_cycle(g, s) && leading_sign(s, 0) == 1 && ternary_code(s, 0) < code + 1
        implies (new_best matches Some(b) && ratio_at_most(b.ratio, -abs_int(cycle_gradient(g, s, g.m() as int)), cycle_length(g, s, g.m() as int))) by {
        let num = -abs_int(cycle_gradient(g, s, g.m() as int));
        let den = cycle_length(g, s, g.m() as int);
        lemma_cycle_length_positive(g, s);
        if ternary_code(s, 0) == code {
            assert(sv == s);
            assert(ratio_at_most(c, num, den));
            lemma_ratio_chain(nb.ratio, c, num, den);
        } else {
            let ob = old_best->0;
            assert(ratio_at_most(ob.ratio, num, den));
            lemma_ratio_chain(nb.ratio, ob.ratio, num, den);
        }
    }
}

/// Once every code below `3^m` is weighed, the incumbent bounds every
/// signed simple cycle: reversing one that starts backward gives one that
/// starts forward with the same absolute gradient and length.
proof fn lemma_bounds_finish(g: FlowNetwork, best: Option<Candidate>)
    requires
        ratio_instance(g),
        bounds_cycles_below(g, best, pow3(g.m() as nat) as int),
        best matches Some(b) ==> b.ratio.denominator > 0,
    ensures
        ratio_minimal(g, incumbent_ratio(best)),
{
    let q = incumbent_ratio(best);
    let m = g.m() as int;
    assert forall|s: Seq<i8>| #[trigger] signed_simple_cycle(g, s) implies (q matches Some(r) && r.denominator > 0
        && ratio_at_most(r, -abs_int(cycle_gradient(g, s, m)), cycle_length(g, s, m))) by {
        lemma_reversed_cycle(g, s);
        let t = reversed_signs(s);
        lemma_code_below_power(s, 0);
        lemma_code_below_power(t, 0);
        if leading_sign(s, 0) == 1 {
            assert(ternary_code(s, 0) < pow3(g.m() as nat));
        } else {
            assert(signed_simple_cycle(g, t));
            assert(ternary_code(t, 0) < pow3(g.m() as nat));
            assert(abs_int(cycle_gradient(g, t, m)) == abs_int(cycle_gradient(g, s, m)));
        }
    }
}

/// The ready state: every node its own component, no signs, no counters.
fn base_snapshot(graph: &FlowNetwork) -> (r: MinimumRatioCycleSnapshot)
    requires
        ratio_admitted(*graph),
    ensures
        r.nodes@.len() == graph.n(),
        r.edges@.len() == graph.m(),
        r.stage == MinimumRatioCycleStage::Ready,
        r.metrics == MinimumRatioCycleMetrics::default_spec(),
{
    proof {
        use_type_invariant(graph);
    }
    let n = graph.nodes().len();
    let m = graph.edges().len();
    let mut nodes: Vec<MinimumRatioCycleNodeState> = Vec::new();
    let mut v: usize = 0;
    while v < n
        invariant
            v <= n,
            n <= MINIMUM_RATIO_CYCLE_MAX_NODES,
            nodes@.len() == v,
        decreases n - v,
    {
        let node = NodeIndex::try_from_usize(v).unwrap();
        nodes.push(MinimumRatioCycleNodeState { node, component: v, parent: None, depth: 0, candidate_balance: 0, on_candidate: false, on_selected: false });
        v = v + 1;
    }
    let mut edges: Vec<MinimumRatioCycleEdgeState> = Vec::new();
    let mut k: usize = 0;
    while k < m
        invariant
            k <= m,
            m == graph.m(),
            edges@.len() == k,
        decreases m - k,
    {
        let e = &graph.edges()[k];
        edges.push(MinimumRatioCycleEdgeState {
            edge: e.id().duplicate(),
            gradient: e.cost(),
            length: e.capacity(),
            tree_edge: false,
            candidate_sign: 0,
            selected_sign: 0,
            numerator_contribution: 0,
            denominator_contribution: 0,
        });
        k = k + 1;
    }
    MinimumRatioCycleSnapshot {
        nodes,
        edges,
        candidate_ratio: None,
        best_ratio: None,
        selected_edge_count: 0,
        maximum_absolute_balance: 0,
        stage: MinimumRatioCycleStage::Ready,
        metrics: zero_metrics(),
    }
}

impl MinimumRatioCycleMetrics {
    /// Every counter at zero.
    pub open spec fn default_spec() -> MinimumRatioCycleMetrics {
        MinimumRatioCycleMetrics {
            forest_edge_scans: 0,
            fundamental_cycles: 0,
            enumerated_vectors: 0,
            simple_cycles: 0,
            ratio_comparisons: 0,
            best_updates: 0,
            dfs_expansions: 0,
            certificate_checks: 0,
            state_transitions: 0,
        }
    }
}

fn zero_metrics() -> (r: MinimumRatioCycleMetrics)
    ensures
        r == MinimumRatioCycleMetrics::default_spec(),
{
    MinimumRatioCycleMetrics {
        forest_edge_scans: 0,
        fundamental_cycles: 0,
        enumerated_vectors: 0,
        simple_cycles: 0,
        ratio_comparisons: 0,
        best_updates: 0,
        dfs_expansions: 0,
        certificate_checks: 0,
        state_transitions: 0,
    }
}

/// Disjoint sets by rank; the larger rank, then the smaller position, wins.
struct UnionFind {
    parent: Vec<usize>,
    rank: Vec<u8>,
}

/// The node reached from `v` by following parents at most `fuel` times.
spec fn root_with(parent: Seq<usize>, v: int, fuel: nat) -> int
    decreases fuel,
{
    if fuel == 0 || parent[v] == v {
        v
    } else {
        root_with(parent, parent[v] as int, (fuel - 1) as nat)
    }
}

impl UnionFind {
    spec fn ok(&self, joins: nat) -> bool {
        &&& self.rank@.len() == self.parent@.len()
        &&& forall|v: int| 0 <= v < self.parent@.len() ==> #[trigger] self.parent@[v] < self.parent@.len()
        &&& forall|v: int| 0 <= v < self.parent@.len() ==> #[trigger] self.rank@[v] <= joins
        &&& forall|v: int| 0 <= v < self.parent@.len() && self.parent@[v] != v ==> self.rank@[self.parent@[v] as int] > #[trigger] self.rank@[v]
    }

    /// The representative of `v`'s set.
    spec fn root(&self, v: int) -> int {
        root_with(self.parent@, v, 256)
    }

    /// Enough fuel reaches the same root.
    proof fn lemma_root_fuel(&self, joins: nat, v: int, k1: nat, k2: nat)
        requires
            self.ok(joins),
            joins < 256,
            0 <= v < self.parent@.len(),
            k1 >= 256 - self.rank@[v],
            k2 >= 256 - self.rank@[v],
        ensures
            root_with(self.parent@, v, k1) == root_with(self.parent@, v, k2),
            self.parent@[root_with(self.parent@, v, k1)] == root_with(self.parent@, v, k1),
            0 <= root_with(self.parent@, v, k1) < self.parent@.len(),
        decreases 256 - self.rank@[v],
    {
        if self.parent@[v] != v {
            let p = self.parent@[v] as int;
            assert(self.rank@[p] > self.rank@[v]);
            self.lemma_root_fuel(joins, p, (k1 - 1) as nat, (k2 - 1) as nat);
        }
    }

    fn new(size: usize) -> (r: UnionFind)
        ensures
            r.ok(0),
            r.parent@.len() == size,
    {
        let mut parent: Vec<usize> = Vec::new();
        let mut rank: Vec<u8> = Vec::new();
        let mut v: usize = 0;
        while v < size
            invariant
                v <= size,
                parent@.len() == v,
                rank@.len() == v,
                forall|u: int| 0 <= u < v ==> (#[trigger] parent@[u]) == u,
                forall|u: int| 0 <= u < v ==> (#[trigger] rank@[u]) == 0,
            decreases size - v,
        {
            parent.push(v);
            rank.push(0);
            v = v + 1;
        }
        UnionFind { parent, rank }
    }

    /// Representative of `value`'s set.
    fn find(&self, value: usize, joins: Ghost<nat>) -> (r: usize)
        requires
            self.ok(joins@),
            joins@ < 256,
            value < self.parent@.len(),
        ensures
            r < self.parent@.len(),
            self.parent@[r as int] == r,
            r == self.root(value as int),
    {
        let mut cursor = value;
        while self.parent[cursor] != cursor
            invariant
                self.ok(joins@),
                joins@ < 256,
                cursor < self.parent@.len(),
                self.root(value as int) == self.root(cursor as int),
            decreases 256 - self.rank@[cursor as int],
        {
            proof {
                let p = self.parent@[cursor as int] as int;
                self.lemma_root_fuel(joins@, p, 255, 256);
            }
            cursor = self.parent[cursor];
        }
        cursor
    }

    /// Unites the sets of `left` and `right`; `false` if already one set.
    fn join(&mut self, left: usize, right: usize, joins: Ghost<nat>) -> (r: bool)
        requires
            old(self).ok(joins@),
            joins@ < 255,
            left < old(self).parent@.len(),
            right < old(self).parent@.len(),
        ensures
            final(self).ok(if r { joins@ + 1 } else { joins@ }),
            final(self).parent@.len() == old(self).parent@.len(),
            r == (old(self).root(left as int) != old(self).root(right as int)),
            !r ==> *final(self) == *old(self),
            r ==> final(self).parent@ == old(self).parent@.update(old(self).root(left as int), old(self).root(right as int) as usize)
                || final(self).parent@ == old(self).parent@.update(old(self).root(right as int), old(self).root(left as int) as usize),
    {
        let mut a = self.find(left, joins);
        let mut b = self.find(right, joins);
        if a == b {
            return false;
        }
        if self.rank[a] < self.rank[b] || (self.rank[a] == self.rank[b] && a > b) {
            let t = a;
            a = b;
            b = t;
        }
        self.parent.set(b, a);
        if self.rank[a] == self.rank[b] {
            let x = self.rank[a];
            self.rank.set(a, x + 1);
        }
        true
    }
}

/// Forest projections of the nodes, tree-edge flags, cycle-space dimension,
/// and the edge inspections spent.
struct ForestState {
    nodes: Vec<MinimumRatioCycleNodeState>,
    tree_edges: Vec<bool>,
    fundamental_cycles: usize,
    edge_scans: u128,
}

/// Pairs in lexicographic order.
pub open spec fn pair_le(a: (usize, usize), b: (usize, usize)) -> bool {
    a.0 < b.0 || (a.0 == b.0 && a.1 <= b.1)
}

/// The first `k` pairs are in lexicographic order.
pub open spec fn pairs_sorted(s: Seq<(usize, usize)>, k: int) -> bool {
    forall|a: int, b: int| 0 <= a < b < k ==> pair_le(#[trigger] s[a], #[trigger] s[b])
}

/// Swapping two adjacent entries keeps the multiset of entries.
pub(crate) proof fn lemma_swap_keeps_multiset<A>(s: Seq<A>, j: int)
    requires
        1 <= j < s.len(),
    ensures
        s.update(j - 1, s[j]).update(j, s[j - 1]).to_multiset() == s.to_multiset(),
{
    broadcast use vstd::seq_lib::group_to_multiset_ensures;
    let s1 = s.update(j - 1, s[j]);
    vstd::seq_lib::to_multiset_update(s, j - 1, s[j]);
    vstd::seq_lib::to_multiset_update(s1, j, s[j - 1]);
    assert(s1[j] == s[j]);
    assert(s.to_multiset().count(s[j - 1]) > 0) by {
        vstd::seq_lib::to_multiset_contains(s, s[j - 1]);
    }
    assert(s1.update(j, s[j - 1]).to_multiset() =~= s.to_multiset());
}

/// Sorts pairs into lexicographic order.
pub(crate) fn sort_pairs(v: &mut Vec<(usize, usize)>)
    ensures
        final(v)@.len() == old(v)@.len(),
        forall|i: int| 0 <= i < final(v)@.len() ==> old(v)@.contains(#[trigger] final(v)@[i]),
        final(v)@.to_multiset() == old(v)@.to_multiset(),
        pairs_sorted(final(v)@, final(v)@.len() as int),
{
    let len = v.len();
    let ghost original = v@;
    if len == 0 {
        return;
    }
    let mut i: usize = 1;
    while i < len
        invariant
            1 <= i <= len,
            len == v@.len(),
            forall|x: int| 0 <= x < v@.len() ==> original.contains(#[trigger] v@[x]),
            v@.to_multiset() == original.to_multiset(),
            pairs_sorted(v@, i as int),
        decreases len - i,
    {
        let mut j = i;
        while j > 0
            invariant
                j <= i < len,
                len == v@.len(),
                forall|x: int| 0 <= x < v@.len() ==> original.contains(#[trigger] v@[x]),
                v@.to_multiset() == original.to_multiset(),
                forall|a: int, b: int| 0 <= a < b <= i && a != j && b != j ==> pair_le(#[trigger] v@[a], #[trigger] v@[b]),
                forall|b: int| j < b <= i ==> pair_le(v@[j as int], #[trigger] v@[b]),
            ensures
                len == v@.len(),
                forall|x: int| 0 <= x < v@.len() ==> original.contains(#[trigger] v@[x]),
                v@.to_multiset() == original.to_multiset(),
                pairs_sorted(v@, i + 1),
            decreases j,
        {
            let l = v[j - 1];
            let r = v[j];
            if l.0 < r.0 || (l.0 == r.0 && l.1 <= r.1) {
                proof {
                    assert forall|a: int, b: int| 0 <= a < b < i + 1 implies pair_le(#[trigger] v@[a], #[trigger] v@[b]) by {
                        if b == j && a < j - 1 {
                            assert(pair_le(v@[a], v@[j - 1]));
                        }
                    }
                }
                break;
            }
            let ghost before = v@;
            v.set(j - 1, r);
            v.set(j, l);
            proof {
                lemma_swap_keeps_multiset(before, j as int);
                assert(v@ == before.update(j - 1, before[j as int]).update(j as int, before[j - 1]));
                assert forall|x: int| 0 <= x < v@.len() implies original.contains(#[trigger] v@[x]) by {
                    if x == j - 1 {
                        assert(v@[x] == before[j as int]);
                    } else if x == j {
                        assert(v@[x] == before[j - 1]);
                    } else {
                        assert(v@[x] == before[x]);
                    }
                }
                assert forall|a: int, b: int| 0 <= a < b <= i && a != j - 1 && b != j - 1 implies pair_le(#[trigger] v@[a], #[trigger] v@[b]) by {
                    if b == j {
                        assert(pair_le(before[a], before[j - 1]));
                    } else if a == j {
                        assert(pair_le(before[j - 1], before[b]));
                    } else {
                        assert(v@[a] == before[a] && v@[b] == before[b]);
                    }
                }
                assert forall|b: int| j - 1 < b <= i implies pair_le(v@[j - 1], #[trigger] v@[b]) by {
                    if b > j {
                        assert(pair_le(before[j as int], before[b]));
                    }
                }
            }
            j = j - 1;
        }
        i = i + 1;
    }
}

/// A spanning forest by union-find in edge order, rooted by breadth-first
/// search from the smallest node of each component over sorted neighbours.
fn build_spanning_forest(graph: &FlowNetwork) -> (r: Result<ForestState, Rcerr>)
    requires
        ratio_admitted(*graph),
    ensures
        r matches Ok(f) ==> f.nodes@.len() == graph.n() && f.tree_edges@.len() == graph.m(),
        r is Err ==> r == Err::<ForestState, Rcerr>(Rcerr::CycleInvariant) || r == Err::<ForestState, Rcerr>(Rcerr::ArithmeticOverflow),
{
    proof {
        use_type_invariant(graph);
    }
    let n = graph.nodes().len();
    let m = graph.edges().len();
    let mut union = UnionFind::new(n);
    let mut tree_edges: Vec<bool> = Vec::new();
    let mut scans: u128 = 0;
    let ghost mut joins: nat = 0;
    let mut k: usize = 0;
    while k < m
        invariant
            graph.wf(),
            n == graph.n(),
            m == graph.m(),
            m <= MINIMUM_RATIO_CYCLE_MAX_EDGES,
            k <= m,
            union.ok(joins),
            joins <= k,
            union.parent@.len() == n,
            tree_edges@.len() == k,
            scans == k,
        decreases m - k,
    {
        scans = scans + 1;
        let e = &graph.edges()[k];
        let joined = union.join(e.from().as_usize(), e.to().as_usize(), Ghost(joins));
        if joined {
            proof {
                joins = joins + 1;
            }
        }
        tree_edges.push(joined);
        k = k + 1;
    }
    let mut adjacency: Vec<Vec<(usize, usize)>> = Vec::new();
    let mut u: usize = 0;
    while u < n
        invariant
            graph.wf(),
            n == graph.n(),
            m == graph.m(),
            u <= n,
            tree_edges@.len() == m,
            adjacency@.len() == u,
            forall|w: int, i: int| 0 <= w < adjacency@.len() && 0 <= i < adjacency@[w]@.len() ==> (#[trigger] adjacency@[w]@[i]).0 < n,
        decreases n - u,
    {
        let mut list: Vec<(usize, usize)> = Vec::new();
        let mut k: usize = 0;
        while k < m
            invariant
                graph.wf(),
                n == graph.n(),
                m == graph.m(),
                k <= m,
                tree_edges@.len() == m,
                forall|i: int| 0 <= i < list@.len() ==> (#[trigger] list@[i]).0 < n,
            decreases m - k,
        {
            if tree_edges[k] {
                let e = &graph.edges()[k];
                let from = e.from().as_usize();
                let to = e.to().as_usize();
                if from == u {
                    list.push((to, k));
                }
                if to == u {
                    list.push((from, k));
                }
            }
            k = k + 1;
        }
        let ghost unsorted = list@;
        sort_pairs(&mut list);
        proof {
            assert forall|i: int| 0 <= i < list@.len() implies (#[trigger] list@[i]).0 < n by {
                assert(unsorted.contains(list@[i]));
            }
        }
        let ghost before = adjacency@;
        adjacency.push(list);
        proof {
            assert forall|w: int, i: int| 0 <= w < adjacency@.len() && 0 <= i < adjacency@[w]@.len() implies (#[trigger] adjacency@[w]@[i]).0 < n by {
                if w < before.len() {
                    assert(adjacency@[w] == before[w]);
                }
            }
        }
        u = u + 1;
    }
    let mut k: usize = 0;
    while k < m
        invariant
            k <= m,
            m <= MINIMUM_RATIO_CYCLE_MAX_EDGES,
            tree_edges@.len() == m,
            scans <= m + 2 * k,
        decreases m - k,
    {
        if tree_edges[k] {
            scans = scans + 2;
        }
        k = k + 1;
    }
    let mut nodes = base_snapshot(graph).nodes;
    let mut seen: Vec<bool> = Vec::new();
    let mut v: usize = 0;
    while v < n
        invariant
            v <= n,
            seen@.len() == v,
            forall|u: int| 0 <= u < v ==> !(#[trigger] seen@[u]),
        decreases n - v,
    {
        seen.push(false);
        v = v + 1;
    }
    proof {
        lemma_count_true_bounds(seen@, n as int);
    }
    let mut component: usize = 0;
    let mut root: usize = 0;
    while root < n
        invariant
            root <= n,
            n == graph.n(),
            n <= MINIMUM_RATIO_CYCLE_MAX_NODES,
            component <= root,
            seen@.len() == n,
            nodes@.len() == n,
            adjacency@.len() == n,
            forall|w: int, i: int| 0 <= w < adjacency@.len() && 0 <= i < adjacency@[w]@.len() ==> (#[trigger] adjacency@[w]@[i]).0 < n,
        decreases n - root,
    {
        if seen[root] {
            root = root + 1;
            continue;
        }
        proof {
            lemma_count_true_set(seen@, root as int, n as int);
        }
        seen.set(root, true);
        proof {
            lemma_count_true_bounds(seen@, n as int);
        }
        let old_state = nodes[root].clone();
        nodes.set(root, MinimumRatioCycleNodeState { component, ..old_state });
        let mut queue: Vec<usize> = Vec::new();
        queue.push(root);
        let mut head: usize = 0;
        while head < queue.len()
            invariant
                n == graph.n(),
                n <= MINIMUM_RATIO_CYCLE_MAX_NODES,
                seen@.len() == n,
                nodes@.len() == n,
                adjacency@.len() == n,
                forall|w: int, i: int| 0 <= w < adjacency@.len() && 0 <= i < adjacency@[w]@.len() ==> (#[trigger] adjacency@[w]@[i]).0 < n,
                forall|j: int| 0 <= j < queue@.len() ==> queue@[j] < n,
                head <= queue@.len(),
                0 <= count_true(seen@, n as int) <= n,
            decreases 2 * (n - count_true(seen@, n as int)) + queue@.len() - head,
        {
            let ghost measure = 2 * (n - count_true(seen@, n as int)) + queue@.len() - head;
            let node = queue[head];
            head = head + 1;
            let list = &adjacency[node];
            let mut i: usize = 0;
            while i < list.len()
                invariant
                    n == graph.n(),
                    n <= MINIMUM_RATIO_CYCLE_MAX_NODES,
                    list == &adjacency@[node as int],
                    node < n,
                    i <= list@.len(),
                    seen@.len() == n,
                    nodes@.len() == n,
                    adjacency@.len() == n,
                    forall|w: int, j: int| 0 <= w < adjacency@.len() && 0 <= j < adjacency@[w]@.len() ==> (#[trigger] adjacency@[w]@[j]).0 < n,
                    forall|j: int| 0 <= j < queue@.len() ==> queue@[j] < n,
                    head <= queue@.len(),
                    0 <= count_true(seen@, n as int) <= n,
                    2 * (n - count_true(seen@, n as int)) + queue@.len() - head < measure,
                decreases list@.len() - i,
            {
                let (next, _) = list[i];
                assert(next < n) by {
                    assert(adjacency@[node as int]@[i as int].0 < n);
                }
                i = i + 1;
                if scans == u128::MAX {
                    return Err(Rcerr::ArithmeticOverflow);
                }
                scans = scans + 1;
                if !seen[next] {
                    proof {
                        lemma_count_true_set(seen@, next as int, n as int);
                        lemma_count_true_bounds(seen@, n as int);
                    }
                    seen.set(next, true);
                    let depth = nodes[node].depth;
                    if depth == usize::MAX {
                        return Err(Rcerr::ArithmeticOverflow);
                    }
                    let parent = NodeIndex::try_from_usize(node).unwrap();
                    let old_state = nodes[next].clone();
                    nodes.set(next, MinimumRatioCycleNodeState { component, parent: Some(parent), depth: depth + 1, ..old_state });
                    queue.push(next);
                    proof {
                        lemma_count_true_bounds(seen@, n as int);
                    }
                }
            }
        }
        component = component + 1;
        root = root + 1;
    }
    if m + component < n {
        return Err(Rcerr::CycleInvariant);
    }
    let fundamental_cycles = m + component - n;
    Ok(ForestState { nodes, tree_edges, fundamental_cycles, edge_scans: scans })
}


/// `3^k`, or an overflow error.
fn checked_pow3(k: usize) -> (r: Result<u64, Rcerr>)
    ensures
        r matches Ok(v) ==> v == pow3(k as nat),
        r is Err ==> r == Err::<u64, Rcerr>(Rcerr::ArithmeticOverflow),
{
    let mut value: u64 = 1;
    let mut i: usize = 0;
    while i < k
        invariant
            i <= k,
            value == pow3(i as nat),
        decreases k - i,
    {
        value = match value.checked_mul(3) {
            Some(x) => x,
            None => return Err(Rcerr::ArithmeticOverflow),
        };
        i = i + 1;
    }
    Ok(value)
}

/// Every power of three is positive.
proof fn lemma_pow3_positive(k: nat)
    ensures
        pow3(k) >= 1,
    decreases k,
{
    if k > 0 {
        lemma_pow3_positive((k - 1) as nat);
    }
}

/// Base-three digits of `code`, least significant first: 0, 1, and 2 as -1.
/// Base-3 digit of a sign: 0 for 0, 1 for +1, 2 for -1.
pub open spec fn sign_digit(x: i8) -> int {
    if x == 0 { 0 } else if x == 1 { 1 } else { 2 }
}

/// Base-3 code of the signs from position `i` on, least significant first.
pub open spec fn ternary_code(s: Seq<i8>, i: int) -> int
    decreases s.len() - i,
{
    if i < 0 || i >= s.len() { 0 } else { sign_digit(s[i]) + 3 * ternary_code(s, i + 1) }
}

/// The first nonzero sign from position `i` on, or 0.
pub open spec fn leading_sign(s: Seq<i8>, i: int) -> i8
    decreases s.len() - i,
{
    if i < 0 || i >= s.len() { 0 } else if s[i] != 0 { s[i] } else { leading_sign(s, i + 1) }
}

proof fn lemma_code_below_power(s: Seq<i8>, i: int)
    requires
        0 <= i <= s.len(),
    ensures
        0 <= ternary_code(s, i) < pow3((s.len() - i) as nat),
    decreases s.len() - i,
{
    if i < s.len() {
        lemma_code_below_power(s, i + 1);
        assert(pow3((s.len() - i) as nat) == 3 * pow3((s.len() - (i + 1)) as nat));
    }
}

/// The sign vector whose base-3 code is `code`, over `m` edges: every
/// vector of length `m` with entries in `{-1, 0, 1}` comes back from its code.
fn decode_ternary(code: u64, m: usize) -> (r: Vec<i8>)
    ensures
        r@.len() == m,
        signs_ok(r@),
        forall|s: Seq<i8>| s.len() == m && signs_ok(s) && #[trigger] ternary_code(s, 0) == code ==> r@ == s,
{
    let mut rest = code;
    let mut out: Vec<i8> = Vec::new();
    let mut i: usize = 0;
    while i < m
        invariant
            i <= m,
            out@.len() == i,
            signs_ok(out@),
            forall|s: Seq<i8>| s.len() == m && signs_ok(s) && #[trigger] ternary_code(s, 0) == code ==> out@ == s.take(i as int) && rest == ternary_code(s, i as int),
        decreases m - i,
    {
        let digit = rest % 3;
        let ghost old_out = out@;
        let ghost old_rest = rest;
        out.push(if digit == 0 { 0 } else if digit == 1 { 1 } else { -1 });
        rest = rest / 3;
        proof {
            assert forall|s: Seq<i8>| s.len() == m && signs_ok(s) && #[trigger] ternary_code(s, 0) == code implies out@ == s.take(i + 1) && rest == ternary_code(s, i + 1) by {
                assert(old_rest == sign_digit(s[i as int]) + 3 * ternary_code(s, i + 1));
                assert(-1 <= s[i as int] <= 1);
                assert(out@ =~= s.take(i + 1)) by {
                    assert(old_out == s.take(i as int));
                }
            }
        }
        i = i + 1;
    }
    proof {
        assert forall|s: Seq<i8>| s.len() == m && signs_ok(s) && #[trigger] ternary_code(s, 0) == code implies out@ == s by {
            assert(s.take(m as int) =~= s);
        }
    }
    out
}

/// Copies a snapshot's node states with new candidate annotations.
fn apply_sign_vector(
    graph: &FlowNetwork,
    snapshot: &mut MinimumRatioCycleSnapshot,
    candidate_signs: &Vec<i8>,
    candidate_ratio: Option<Ratio>,
    best: &Option<Candidate>,
)
    requires
        ratio_admitted(*graph),
        old(snapshot).nodes@.len() == graph.n(),
        old(snapshot).edges@.len() == graph.m(),
        candidate_signs@.len() == graph.m(),
        signs_ok(candidate_signs@),
        best matches Some(b) ==> b.signs@.len() == graph.m() && signs_ok(b.signs@),
    ensures
        final(snapshot).nodes@.len() == graph.n(),
        final(snapshot).edges@.len() == graph.m(),
        final(snapshot).stage == old(snapshot).stage,
        final(snapshot).metrics == old(snapshot).metrics,
        final(snapshot).candidate_ratio == candidate_ratio,
{
    proof {
        use_type_invariant(graph);
    }
    let n = graph.nodes().len();
    let m = graph.edges().len();
    let selected: Vec<i8> = match best {
        Some(b) => copy_signs(&b.signs),
        None => zero_signs(m),
    };
    let mut balances: Vec<i32> = Vec::new();
    let mut v: usize = 0;
    while v < n
        invariant
            v <= n,
            balances@.len() == v,
            forall|u: int| 0 <= u < v ==> balances@[u] == 0,
        decreases n - v,
    {
        balances.push(0);
        v = v + 1;
    }
    let mut edges: Vec<MinimumRatioCycleEdgeState> = Vec::new();
    let mut k: usize = 0;
    while k < m
        invariant
            graph.wf(),
            n == graph.n(),
            m == graph.m(),
            m <= MINIMUM_RATIO_CYCLE_MAX_EDGES,
            k <= m,
            snapshot.edges@.len() == m,
            candidate_signs@.len() == m,
            signs_ok(candidate_signs@),
            selected@.len() == m,
            balances@.len() == n,
            edges@.len() == k,
            forall|u: int| 0 <= u < n ==> -k <= #[trigger] balances@[u] <= k,
        decreases m - k,
    {
        let e = &graph.edges()[k];
        let state = &snapshot.edges[k];
        let sign = candidate_signs[k];
        let cost = e.cost() as i128;
        edges.push(MinimumRatioCycleEdgeState {
            edge: state.edge.duplicate(),
            gradient: state.gradient,
            length: state.length,
            tree_edge: state.tree_edge,
            candidate_sign: sign,
            selected_sign: selected[k],
            numerator_contribution: if sign == 1 { cost } else if sign == -1 { -cost } else { 0 },
            denominator_contribution: if sign == 0 { 0 } else { e.capacity() as u128 },
        });
        let from = e.from().as_usize();
        let to = e.to().as_usize();
        balances.set(from, balances[from] - sign as i32);
        balances.set(to, balances[to] + sign as i32);
        k = k + 1;
    }
    let mut nodes: Vec<MinimumRatioCycleNodeState> = Vec::new();
    let mut maximum: u32 = 0;
    let mut v: usize = 0;
    while v < n
        invariant
            graph.wf(),
            n == graph.n(),
            m == graph.m(),
            m <= MINIMUM_RATIO_CYCLE_MAX_EDGES,
            v <= n,
            snapshot.nodes@.len() == n,
            candidate_signs@.len() == m,
            selected@.len() == m,
            balances@.len() == n,
            nodes@.len() == v,
            forall|u: int| 0 <= u < n ==> -m <= #[trigger] balances@[u] <= m,
        decreases n - v,
    {
        let mut on_candidate = false;
        let mut on_selected = false;
        let mut k: usize = 0;
        while k < m
            invariant
                graph.wf(),
                m == graph.m(),
                k <= m,
                candidate_signs@.len() == m,
                selected@.len() == m,
            decreases m - k,
        {
            let e = &graph.edges()[k];
            let touches = e.from().as_usize() == v || e.to().as_usize() == v;
            if touches && candidate_signs[k] != 0 {
                on_candidate = true;
            }
            if touches && selected[k] != 0 {
                on_selected = true;
            }
            k = k + 1;
        }
        let b = balances[v];
        let magnitude: u32 = if b < 0 { (-b) as u32 } else { b as u32 };
        if magnitude > maximum {
            maximum = magnitude;
        }
        let old_state = &snapshot.nodes[v];
        nodes.push(MinimumRatioCycleNodeState {
            node: old_state.node,
            component: old_state.component,
            parent: old_state.parent,
            depth: old_state.depth,
            candidate_balance: b,
            on_candidate,
            on_selected,
        });
        v = v + 1;
    }
    let mut count: usize = 0;
    let mut k: usize = 0;
    while k < m
        invariant
            k <= m,
            m == selected@.len(),
            count <= k,
        decreases m - k,
    {
        if selected[k] != 0 {
            count = count + 1;
        }
        k = k + 1;
    }
    snapshot.nodes = nodes;
    snapshot.edges = edges;
    snapshot.maximum_absolute_balance = maximum;
    snapshot.candidate_ratio = candidate_ratio;
    snapshot.best_ratio = match best {
        Some(b) => Some(b.ratio),
        None => None,
    };
    snapshot.selected_edge_count = count;
}

/// Annotates a snapshot with a candidate (or none) and the incumbent.
fn apply_candidate(graph: &FlowNetwork, snapshot: &mut MinimumRatioCycleSnapshot, candidate: &Option<Candidate>, best: &Option<Candidate>)
    requires
        ratio_admitted(*graph),
        old(snapshot).nodes@.len() == graph.n(),
        old(snapshot).edges@.len() == graph.m(),
        candidate matches Some(c) ==> c.signs@.len() == graph.m() && signs_ok(c.signs@),
        best matches Some(b) ==> b.signs@.len() == graph.m() && signs_ok(b.signs@),
    ensures
        final(snapshot).nodes@.len() == graph.n(),
        final(snapshot).edges@.len() == graph.m(),
        final(snapshot).stage == old(snapshot).stage,
        final(snapshot).metrics == old(snapshot).metrics,
        candidate is None ==> final(snapshot).candidate_ratio is None,
{
    match candidate {
        Some(c) => apply_sign_vector(graph, snapshot, &c.signs, Some(c.ratio), best),
        None => {
            let zeros = zero_signs(graph.edges().len());
            apply_sign_vector(graph, snapshot, &zeros, None, best)
        },
    }
}

/// The used edges of `s` among the first `k`, in edge order: identity and sign.
pub open spec fn used_arcs(g: FlowNetwork, s: Seq<i8>, k: int) -> Seq<(Seq<u8>, i8)>
    decreases k,
{
    if k <= 0 {
        Seq::empty()
    } else if s[k - 1] != 0 {
        used_arcs(g, s, k - 1).push((g.edge_seq()[k - 1].id@, s[k - 1]))
    } else {
        used_arcs(g, s, k - 1)
    }
}

/// Identity and sign of each arc.
pub open spec fn arcs_view(a: Seq<MinimumRatioCycleArc>) -> Seq<(Seq<u8>, i8)> {
    a.map_values(|x: MinimumRatioCycleArc| (x.edge@, x.sign))
}

/// `q` is exactly the ratio of the signed simple cycle `s`: minus its
/// absolute gradient over its length.
pub open spec fn cycle_attains(g: FlowNetwork, q: Ratio, s: Seq<i8>) -> bool {
    &&& signed_simple_cycle(g, s)
    &&& q.denominator > 0
    &&& q.numerator * cycle_length(g, s, g.m() as int) == -abs_int(cycle_gradient(g, s, g.m() as int)) * q.denominator
}

/// The signed original edges of a sign vector, in edge order.
fn cycle_arcs(graph: &FlowNetwork, signs: &Vec<i8>) -> (r: Vec<MinimumRatioCycleArc>)
    requires
        signs@.len() == graph.m(),
    ensures
        arcs_view(r@) == used_arcs(*graph, signs@, graph.m() as int),
{
    proof {
        use_type_invariant(graph);
    }
    let mut out: Vec<MinimumRatioCycleArc> = Vec::new();
    let mut k: usize = 0;
    while k < signs.len()
        invariant
            k <= signs@.len(),
            signs@.len() == graph.m(),
            arcs_view(out@) == used_arcs(*graph, signs@, k as int),
        decreases signs@.len() - k,
    {
        if signs[k] != 0 {
            let ghost before = out@;
            let e = &graph.edges()[k];
            assert(graph.edge_seq()[k as int] == *e);
            out.push(MinimumRatioCycleArc { edge: e.id().duplicate(), sign: signs[k] });
            proof {
                assert(arcs_view(out@) =~= arcs_view(before).push((e.id@, signs@[k as int])));
            }
        }
        k = k + 1;
    }
    out
}

spec fn candidate_ok(g: FlowNetwork, c: Option<Candidate>) -> bool {
    c matches Some(x) ==> x.signs@.len() == g.m() && signs_ok(x.signs@) && x.ratio.denominator > 0 && lowest_terms(x.ratio)
        && published_orientation(g, x.signs@)
}

/// Keeps the least (ratio, signs) of the incumbent and `candidate`.
fn consider(best: &mut Option<Candidate>, candidate: Candidate) -> (r: Result<bool, Rcerr>)
    requires
        *old(best) matches Some(b) ==> b.ratio.denominator > 0,
        candidate.ratio.denominator > 0,
    ensures
        r matches Ok(replaced) ==> (if replaced { *final(best) == Some(candidate) } else { *final(best) == *old(best) }),
        r matches Ok(true) ==> (*old(best) matches Some(b) ==> ratio_le(candidate.ratio, b.ratio)),
        r matches Ok(false) ==> (*old(best) matches Some(b) && ratio_le(b.ratio, candidate.ratio)),
        r is Err ==> *final(best) == *old(best) && r == Err::<bool, Rcerr>(Rcerr::ArithmeticOverflow),
{
    let replace = match best {
        None => true,
        Some(current) => {
            let order = rational_order(candidate.ratio, current.ratio)?;
            if order == -1 { true } else if order == 1 { false } else { signs_precede(&candidate.signs, &current.signs) }
        },
    };
    if replace {
        *best = Some(candidate);
    }
    Ok(replace)
}

/// Simple cycles through `start` using only nodes after it, found by
/// extending an edge-disjoint path one incident edge at a time.
fn dfs_cycles(
    graph: &FlowNetwork,
    start: usize,
    current: usize,
    visited: &mut Vec<bool>,
    used: &mut Vec<bool>,
    signs: &mut Vec<i8>,
    path_edges: usize,
    best: &mut Option<Candidate>,
    expansions: &mut u64,
) -> (r: Result<(), Rcerr>)
    requires
        ratio_admitted(*graph),
        ratio_instance(*graph),
        old(visited)@.len() == graph.n(),
        old(used)@.len() == graph.m(),
        old(signs)@.len() == graph.m(),
        signs_ok(old(signs)@),
        candidate_ok(*graph, *old(best)),
        path_edges < graph.n(),
    ensures
        r matches Err(e) ==> rc_late(e),
        final(visited)@.len() == graph.n(),
        final(used)@.len() == graph.m(),
        final(signs)@.len() == graph.m(),
        signs_ok(final(signs)@),
        candidate_ok(*graph, *final(best)),
    decreases graph.n() - path_edges,
{
    proof {
        use_type_invariant(graph);
    }
    let n = graph.nodes().len();
    let m = graph.edges().len();
    let mut k: usize = 0;
    while k < m
        invariant
            ratio_admitted(*graph),
            ratio_instance(*graph),
            graph.wf(),
            n == graph.n(),
            m == graph.m(),
            k <= m,
            path_edges < n,
            visited@.len() == n,
            used@.len() == m,
            signs@.len() == m,
            signs_ok(signs@),
            candidate_ok(*graph, *best),
        decreases m - k,
    {
        let e = &graph.edges()[k];
        let from = e.from().as_usize();
        let to = e.to().as_usize();
        if used[k] || (from != current && to != current) {
            k = k + 1;
            continue;
        }
        let (next, sign): (usize, i8) = if from == current { (to, 1) } else { (from, -1) };
        if *expansions == u64::MAX {
            return Err(Rcerr::ArithmeticOverflow);
        }
        *expansions = *expansions + 1;
        if *expansions > MINIMUM_RATIO_CYCLE_MAX_DFS_EXPANSIONS {
            return Err(Rcerr::WorkLimit);
        }
        if next == start {
            if path_edges >= 1 {
                signs.set(k, sign);
                let found = candidate_from_signs(graph, copy_signs(signs))?;
                signs.set(k, 0);
                match found {
                    Some(c) => {
                        consider(best, c)?;
                    },
                    None => {},
                }
            }
            k = k + 1;
            continue;
        }
        if next < start || visited[next] || path_edges + 1 >= n {
            k = k + 1;
            continue;
        }
        visited.set(next, true);
        used.set(k, true);
        signs.set(k, sign);
        dfs_cycles(graph, start, next, visited, used, signs, path_edges + 1, best, expansions)?;
        signs.set(k, 0);
        used.set(k, false);
        visited.set(next, false);
        k = k + 1;
    }
    Ok(())
}

/// The least (ratio, signs) simple cycle found by the independent DFS oracle.
fn enumerate_best_with_dfs(graph: &FlowNetwork, expansions: &mut u64) -> (r: Result<Option<Candidate>, Rcerr>)
    requires
        ratio_admitted(*graph),
        ratio_instance(*graph),
    ensures
        r matches Ok(c) ==> candidate_ok(*graph, c),
        r matches Err(e) ==> rc_late(e),
{
    proof {
        use_type_invariant(graph);
    }
    let n = graph.nodes().len();
    let m = graph.edges().len();
    let mut best: Option<Candidate> = None;
    let mut start: usize = 0;
    while start < n
        invariant
            ratio_admitted(*graph),
            ratio_instance(*graph),
            n == graph.n(),
            m == graph.m(),
            start <= n,
            candidate_ok(*graph, best),
        decreases n - start,
    {
        let mut visited: Vec<bool> = Vec::new();
        let mut v: usize = 0;
        while v < n
            invariant
                v <= n,
                visited@.len() == v,
            decreases n - v,
        {
            visited.push(false);
            v = v + 1;
        }
        visited.set(start, true);
        let mut used: Vec<bool> = Vec::new();
        let mut k: usize = 0;
        while k < m
            invariant
                k <= m,
                used@.len() == k,
            decreases m - k,
        {
            used.push(false);
            k = k + 1;
        }
        let mut signs = zero_signs(m);
        dfs_cycles(graph, start, start, &mut visited, &mut used, &mut signs, 0, &mut best, expansions)?;
        start = start + 1;
    }
    Ok(best)
}

fn same_ratio(a: Option<Ratio>, b: Option<Ratio>) -> (r: bool)
    ensures
        r <==> a == b,
{
    match (a, b) {
        (Some(x), Some(y)) => x.numerator == y.numerator && x.denominator == y.denominator,
        (None, None) => true,
        _ => false,
    }
}

/// Two optional candidates agree on ratio and signs.
spec fn candidates_equal(a: Option<Candidate>, b: Option<Candidate>) -> bool {
    match (a, b) {
        (Some(x), Some(y)) => x.ratio == y.ratio && x.signs@ == y.signs@,
        (None, None) => true,
        _ => false,
    }
}

fn same_candidate(a: &Option<Candidate>, b: &Option<Candidate>) -> (r: bool)
    ensures
        r == candidates_equal(*a, *b),
{
    match (a, b) {
        (Some(x), Some(y)) => same_ratio(Some(x.ratio), Some(y.ratio)) && same_signs(&x.signs, &y.signs),
        (None, None) => true,
        _ => false,
    }
}

/// What a finished run has established of its result.
pub open spec fn terminal_ok(g: FlowNetwork, res: MinimumRatioCycleResult) -> bool {
    &&& res.final_snapshot.stage == MinimumRatioCycleStage::Complete
    &&& res.final_snapshot.nodes@.len() == g.n()
    &&& res.final_snapshot.edges@.len() == g.m()
    &&& res.final_snapshot.metrics == res.metrics
    &&& res.metrics.enumerated_vectors == pow3(g.m()) - 1
    &&& res.metrics.certificate_checks == 2
    &&& res.final_snapshot.maximum_absolute_balance == 0
    &&& res.final_snapshot.best_ratio == res.ratio
    &&& res.final_snapshot.selected_edge_count == res.cycle@.len()
    &&& res.final_snapshot.candidate_ratio is None
    &&& (res.ratio is None <==> res.cycle@.len() == 0)
}

/// Checks a finished result against its own snapshot, a fresh evaluation of
/// the selected cycle, and the DFS oracle.
fn validate_terminal(graph: &FlowNetwork, result: &MinimumRatioCycleResult) -> (r: Result<(), Rcerr>)
    requires
        ratio_admitted(*graph),
        ratio_instance(*graph),
    ensures
        r is Ok ==> terminal_ok(*graph, *result),
{
    proof {
        use_type_invariant(graph);
    }
    let n = graph.nodes().len();
    let m = graph.edges().len();
    let snapshot = &result.final_snapshot;
    let count = checked_pow3(m)?;
    proof {
        lemma_pow3_positive(m as nat);
    }
    if snapshot.stage != MinimumRatioCycleStage::Complete
        || snapshot.nodes.len() != n
        || snapshot.edges.len() != m
        || snapshot.metrics != result.metrics
        || snapshot.metrics.enumerated_vectors != count - 1
        || snapshot.metrics.certificate_checks != 2
        || snapshot.maximum_absolute_balance != 0
        || !same_ratio(snapshot.best_ratio, result.ratio)
        || snapshot.selected_edge_count != result.cycle.len()
        || snapshot.candidate_ratio.is_some()
    {
        return Err(Rcerr::CycleInvariant);
    }
    let mut signs: Vec<i8> = Vec::new();
    let mut k: usize = 0;
    while k < m
        invariant
            graph.wf(),
            m == graph.m(),
            k <= m,
            signs@.len() == k,
        decreases m - k,
    {
        let id = graph.edges()[k].id();
        let mut sign: i8 = 0;
        let mut i: usize = 0;
        while i < result.cycle.len()
            invariant
                i <= result.cycle@.len(),
            decreases result.cycle@.len() - i,
        {
            if result.cycle[i].edge.compare(id) == 0 {
                sign = result.cycle[i].sign;
                break;
            }
            i = i + 1;
        }
        signs.push(sign);
        k = k + 1;
    }
    if result.ratio.is_none() != (result.cycle.len() == 0) {
        return Err(Rcerr::CycleInvariant);
    }
    let selected = candidate_from_signs(graph, signs)?;
    let ok = match (&selected, result.ratio) {
        (None, None) => true,
        (Some(c), Some(ratio)) => same_ratio(Some(c.ratio), Some(ratio)),
        _ => false,
    };
    if !ok {
        return Err(Rcerr::CycleInvariant);
    }
    let expected: Vec<i8> = match &selected {
        Some(c) => copy_signs(&c.signs),
        None => zero_signs(m),
    };
    let mut k: usize = 0;
    while k < m
        invariant
            graph.wf(),
            m == graph.m(),
            k <= m,
            snapshot.edges@.len() == m,
            expected@.len() == m,
        decreases m - k,
    {
        let state = &snapshot.edges[k];
        let e = &graph.edges()[k];
        if state.edge.compare(e.id()) != 0
            || state.gradient != e.cost()
            || state.length != e.capacity()
            || state.candidate_sign != 0
            || state.selected_sign != expected[k]
            || state.numerator_contribution != 0
            || state.denominator_contribution != 0
        {
            return Err(Rcerr::CycleInvariant);
        }
        k = k + 1;
    }
    let mut expansions: u64 = 0;
    let oracle = enumerate_best_with_dfs(graph, &mut expansions)?;
    if !same_candidate(&oracle, &selected) || expansions != snapshot.metrics.dfs_expansions {
        return Err(Rcerr::OracleDisagreement);
    }
    Ok(())
}


/// The current boundary and, when enabled, every transition so far.
struct Recorder {
    current: MinimumRatioCycleSnapshot,
    events: Vec<MinimumRatioCycleTraceEvent>,
    enabled: bool,
}

impl Recorder {
    /// Closes a transition begun at `before`: counts it and, when enabled,
    /// records it.
    fn commit(&mut self, catalog_id: &'static str, before: MinimumRatioCycleSnapshot) -> (r: Result<(), Rcerr>)
        ensures
            r matches Err(e) ==> rc_late(e),
            final(self).current.nodes == old(self).current.nodes,
            final(self).current.edges == old(self).current.edges,
            final(self).current.stage == old(self).current.stage,
            final(self).current.candidate_ratio == old(self).current.candidate_ratio,
            final(self).current.best_ratio == old(self).current.best_ratio,
            final(self).current.selected_edge_count == old(self).current.selected_edge_count,
            final(self).current.maximum_absolute_balance == old(self).current.maximum_absolute_balance,
            final(self).current.metrics == (MinimumRatioCycleMetrics {
                state_transitions: final(self).current.metrics.state_transitions,
                ..old(self).current.metrics
            }),
    {
        if self.current.metrics.state_transitions == u64::MAX {
            return Err(Rcerr::ArithmeticOverflow);
        }
        self.current.metrics.state_transitions = self.current.metrics.state_transitions + 1;
        if self.enabled {
            if self.events.len() >= MINIMUM_RATIO_CYCLE_MAX_TRACE_EVENTS {
                return Err(Rcerr::WorkLimit);
            }
            let after = self.current.clone();
            self.events.push(MinimumRatioCycleTraceEvent { catalog_id, before, after });
        }
        Ok(())
    }
}

/// The finished result, the ready boundary, and the recorded transitions.
struct InternalRun {
    result: MinimumRatioCycleResult,
    base_snapshot: MinimumRatioCycleSnapshot,
    events: Vec<MinimumRatioCycleTraceEvent>,
}

fn set_search_metrics(metrics: &mut MinimumRatioCycleMetrics, code: u64, simple_cycles: u64, comparisons: u64, best_updates: u64)
    ensures
        final(metrics).certificate_checks == old(metrics).certificate_checks,
        *final(metrics) == (MinimumRatioCycleMetrics {
            enumerated_vectors: code,
            simple_cycles: simple_cycles,
            ratio_comparisons: comparisons,
            best_updates: best_updates,
            ..*old(metrics)
        }),
{
    metrics.enumerated_vectors = code;
    metrics.simple_cycles = simple_cycles;
    metrics.ratio_comparisons = comparisons;
    metrics.best_updates = best_updates;
}

#[verifier::rlimit(40)]
fn run_internal(graph: &FlowNetwork, record_events: bool) -> (r: Result<InternalRun, Rcerr>)
    ensures
        r matches Err(e) ==> (e == Rcerr::AdmissionLimit <==> !ratio_admitted(*graph))
            && (e == Rcerr::GraphRequirement <==> ratio_admitted(*graph) && !ratio_instance(*graph)),
        r is Ok ==> ratio_admitted(*graph) && ratio_instance(*graph),
        r matches Ok(run) ==> terminal_ok(*graph, run.result) && ratio_minimal(*graph, run.result.ratio),
        r matches Ok(run) ==> (run.result.ratio matches Some(q) ==> lowest_terms(q)),
        r matches Ok(run) ==> (run.result.ratio matches Some(q) ==> exists|s: Seq<i8>| cycle_attains(*graph, q, s)
            && arcs_view(run.result.cycle@) == #[trigger] used_arcs(*graph, s, graph.m() as int) && published_orientation(*graph, s)),
{
    match validate_graph(graph) {
        Ok(()) => {},
        Err(e) => return Err(e),
    }
    proof {
        use_type_invariant(graph);
    }
    let m = graph.edges().len();
    let base = base_snapshot(graph);
    let mut recorder = Recorder { current: base.clone(), events: Vec::new(), enabled: record_events };
    recorder.current = base_snapshot(graph);

    let before = recorder.current.clone();
    recorder.current.stage = MinimumRatioCycleStage::MapGradientLength;
    recorder.commit("minimum-ratio-cycle.map-gradient-length", before)?;

    let forest = build_spanning_forest(graph)?;
    let before = recorder.current.clone();
    recorder.current.stage = MinimumRatioCycleStage::BuildSpanningForest;
    recorder.current.nodes = forest.nodes;
    let mut edges: Vec<MinimumRatioCycleEdgeState> = Vec::new();
    let mut k: usize = 0;
    while k < m
        invariant
            k <= m,
            m == graph.m(),
            recorder.current.edges@.len() == m,
            forest.tree_edges@.len() == m,
            edges@.len() == k,
        decreases m - k,
    {
        let state = &recorder.current.edges[k];
        edges.push(MinimumRatioCycleEdgeState {
            edge: state.edge.duplicate(),
            gradient: state.gradient,
            length: state.length,
            tree_edge: forest.tree_edges[k],
            candidate_sign: state.candidate_sign,
            selected_sign: state.selected_sign,
            numerator_contribution: state.numerator_contribution,
            denominator_contribution: state.denominator_contribution,
        });
        k = k + 1;
    }
    recorder.current.edges = edges;
    recorder.current.metrics.forest_edge_scans = forest.edge_scans;
    if forest.fundamental_cycles as u128 > u64::MAX as u128 {
        return Err(Rcerr::ArithmeticOverflow);
    }
    recorder.current.metrics.fundamental_cycles = forest.fundamental_cycles as u64;
    recorder.commit("minimum-ratio-cycle.build-spanning-forest", before)?;

    let vector_count = checked_pow3(m)?;
    if vector_count > MINIMUM_RATIO_CYCLE_MAX_ENUMERATED_VECTORS {
        return Err(Rcerr::WorkLimit);
    }
    let mut best: Option<Candidate> = None;
    let mut simple_cycles: u64 = 0;
    let mut comparisons: u64 = 0;
    let mut best_updates: u64 = 0;
    let mut last_checkpoint: u64 = 0;
    let mut code: u64 = 1;
    proof {
        lemma_bounds_start(*graph, best);
        lemma_pow3_positive(m as nat);
    }
    while code < vector_count
        invariant
            ratio_admitted(*graph),
            ratio_instance(*graph),
            m == graph.m(),
            vector_count <= MINIMUM_RATIO_CYCLE_MAX_ENUMERATED_VECTORS,
            vector_count == pow3(m as nat),
            1 <= code <= vector_count,
            bounds_cycles_below(*graph, best, code as int),
            simple_cycles < code,
            comparisons < code,
            best_updates < code,
            recorder.current.nodes@.len() == graph.n(),
            recorder.current.edges@.len() == m,
            candidate_ok(*graph, best),
            best matches Some(b) ==> cycle_attains(*graph, b.ratio, b.signs@),
        decreases vector_count - code,
    {
        let signs = decode_ternary(code, m);
        if code <= MINIMUM_RATIO_CYCLE_TRACE_DENSE_VECTOR_PREFIX
            || (code >= last_checkpoint && code - last_checkpoint >= MINIMUM_RATIO_CYCLE_TRACE_VECTOR_BLOCK_MAX)
            || code + 1 == vector_count
        {
            let before = recorder.current.clone();
            recorder.current.stage = MinimumRatioCycleStage::InspectVector;
            apply_sign_vector(graph, &mut recorder.current, &signs, None, &best);
            set_search_metrics(&mut recorder.current.metrics, code, simple_cycles, comparisons, best_updates);
            recorder.commit("minimum-ratio-cycle.inspect-vector-checkpoint", before)?;
            last_checkpoint = code;
        }
        let ghost sv = signs@;
        assert(decodes_from(*graph, sv, code as int));
        let mut first: i8 = 0;
        let mut i: usize = 0;
        while i < signs.len() && first == 0
            invariant
                i <= signs@.len(),
                signs@ == sv,
                first == 0 ==> leading_sign(sv, 0) == leading_sign(sv, i as int),
                first != 0 ==> first == leading_sign(sv, 0),
            decreases signs@.len() - i,
        {
            first = signs[i];
            i = i + 1;
        }
        if first != 1 {
            proof {
                lemma_bounds_skip(*graph, best, code as int, sv);
            }
            code = code + 1;
            continue;
        }
        let candidate = match candidate_from_signs(graph, signs)? {
            Some(c) => c,
            None => {
                proof {
                    lemma_bounds_skip(*graph, best, code as int, sv);
                }
                code = code + 1;
                continue;
            },
        };
        proof {
            if candidate.signs@ != sv {
                lemma_reversed_cycle(*graph, sv);
            }
            assert(cycle_attains(*graph, candidate.ratio, candidate.signs@));
        }
        simple_cycles = simple_cycles + 1;
        let before = recorder.current.clone();
        recorder.current.stage = MinimumRatioCycleStage::EvaluateCycle;
        let shown = Some(Candidate { signs: copy_signs(&candidate.signs), ratio: candidate.ratio });
        apply_candidate(graph, &mut recorder.current, &shown, &best);
        set_search_metrics(&mut recorder.current.metrics, code, simple_cycles, comparisons, best_updates);
        recorder.commit("minimum-ratio-cycle.evaluate-cycle", before)?;
        if best.is_some() {
            comparisons = comparisons + 1;
        }
        let ghost old_best = best;
        let replaced = consider(&mut best, Candidate { signs: copy_signs(&candidate.signs), ratio: candidate.ratio })?;
        proof {
            lemma_bounds_keep(*graph, old_best, best, code as int, sv, candidate.ratio);
        }
        if replaced {
            best_updates = best_updates + 1;
            let before = recorder.current.clone();
            recorder.current.stage = MinimumRatioCycleStage::UpdateBest;
            apply_candidate(graph, &mut recorder.current, &shown, &best);
            set_search_metrics(&mut recorder.current.metrics, code, simple_cycles, comparisons, best_updates);
            recorder.commit("minimum-ratio-cycle.update-best", before)?;
        }
        code = code + 1;
    }
    proof {
        lemma_bounds_finish(*graph, best);
    }
    let inspected = if vector_count > 0 { vector_count - 1 } else { 0 };
    let before = recorder.current.clone();
    recorder.current.stage = MinimumRatioCycleStage::VerifyCycleSpace;
    apply_candidate(graph, &mut recorder.current, &None, &best);
    set_search_metrics(&mut recorder.current.metrics, inspected, simple_cycles, comparisons, best_updates);
    recorder.current.metrics.certificate_checks = 1;
    recorder.commit("minimum-ratio-cycle.verify-cycle-space", before)?;

    let mut dfs_expansions: u64 = 0;
    let dfs_best = enumerate_best_with_dfs(graph, &mut dfs_expansions)?;
    if !same_candidate(&dfs_best, &best) {
        return Err(Rcerr::OracleDisagreement);
    }
    let before = recorder.current.clone();
    recorder.current.stage = MinimumRatioCycleStage::CheckExhaustiveOracle;
    recorder.current.metrics.dfs_expansions = dfs_expansions;
    recorder.current.metrics.certificate_checks = 2;
    recorder.commit("minimum-ratio-cycle.check-dfs-oracle", before)?;
    let before = recorder.current.clone();
    recorder.current.stage = MinimumRatioCycleStage::Complete;
    recorder.commit("minimum-ratio-cycle.complete-primitive", before)?;

    let (cycle, ratio) = match &best {
        Some(c) => (cycle_arcs(graph, &c.signs), Some(c.ratio)),
        None => (Vec::new(), None),
    };
    proof {
        if let Some(c) = best {
            assert(cycle_attains(*graph, c.ratio, c.signs@) && arcs_view(cycle@) == used_arcs(*graph, c.signs@, graph.m() as int)
                && published_orientation(*graph, c.signs@));
        }
    }
    let metrics = recorder.current.metrics;
    let result = MinimumRatioCycleResult { cycle, ratio, final_snapshot: recorder.current, metrics };
    match validate_terminal(graph, &result) {
        Ok(()) => {},
        Err(_) => return Err(Rcerr::CycleInvariant),
    }
    Ok(InternalRun { result, base_snapshot: base, events: recorder.events })
}

/// Two node states agree field by field.
pub open spec fn node_states_equal(a: MinimumRatioCycleNodeState, b: MinimumRatioCycleNodeState) -> bool {
    &&& a.node@ == b.node@
    &&& a.component == b.component
    &&& match (a.parent, b.parent) {
        (Some(x), Some(y)) => x@ == y@,
        (None, None) => true,
        _ => false,
    }
    &&& a.depth == b.depth
    &&& a.candidate_balance == b.candidate_balance
    &&& a.on_candidate == b.on_candidate
    &&& a.on_selected == b.on_selected
}

/// Two edge states agree field by field.
pub open spec fn edge_states_equal(a: MinimumRatioCycleEdgeState, b: MinimumRatioCycleEdgeState) -> bool {
    &&& a.edge@ == b.edge@
    &&& a.gradient == b.gradient
    &&& a.length == b.length
    &&& a.tree_edge == b.tree_edge
    &&& a.candidate_sign == b.candidate_sign
    &&& a.selected_sign == b.selected_sign
    &&& a.numerator_contribution == b.numerator_contribution
    &&& a.denominator_contribution == b.denominator_contribution
}

/// Two snapshots agree field by field.
pub open spec fn ratio_snapshots_equal(a: MinimumRatioCycleSnapshot, b: MinimumRatioCycleSnapshot) -> bool {
    &&& a.nodes@.len() == b.nodes@.len()
    &&& a.edges@.len() == b.edges@.len()
    &&& forall|i: int| 0 <= i < a.nodes@.len() ==> node_states_equal(#[trigger] a.nodes@[i], b.nodes@[i])
    &&& forall|i: int| 0 <= i < a.edges@.len() ==> edge_states_equal(#[trigger] a.edges@[i], b.edges@[i])
    &&& a.candidate_ratio == b.candidate_ratio
    &&& a.best_ratio == b.best_ratio
    &&& a.selected_edge_count == b.selected_edge_count
    &&& a.maximum_absolute_balance == b.maximum_absolute_balance
    &&& a.stage == b.stage
    &&& a.metrics == b.metrics
}

/// Two events agree on identity and on both snapshots.
pub open spec fn ratio_events_equal(a: MinimumRatioCycleTraceEvent, b: MinimumRatioCycleTraceEvent) -> bool {
    &&& a.catalog_id.spec_bytes() == b.catalog_id.spec_bytes()
    &&& ratio_snapshots_equal(a.before, b.before)
    &&& ratio_snapshots_equal(a.after, b.after)
}

fn same_node_state(a: &MinimumRatioCycleNodeState, b: &MinimumRatioCycleNodeState) -> (r: bool)
    ensures
        r == node_states_equal(*a, *b),
{
    let parents = match (a.parent, b.parent) {
        (Some(x), Some(y)) => x.as_usize() == y.as_usize(),
        (None, None) => true,
        _ => false,
    };
    a.node.as_usize() == b.node.as_usize() && a.component == b.component && parents && a.depth == b.depth
        && a.candidate_balance == b.candidate_balance && a.on_candidate == b.on_candidate && a.on_selected == b.on_selected
}

fn same_edge_state(a: &MinimumRatioCycleEdgeState, b: &MinimumRatioCycleEdgeState) -> (r: bool)
    ensures
        r == edge_states_equal(*a, *b),
{
    a.edge.compare(&b.edge) == 0 && same_text(a.edge.as_str(), b.edge.as_str()) && a.gradient == b.gradient && a.length == b.length
        && a.tree_edge == b.tree_edge && a.candidate_sign == b.candidate_sign && a.selected_sign == b.selected_sign
        && a.numerator_contribution == b.numerator_contribution && a.denominator_contribution == b.denominator_contribution
}

/// Field-by-field equality of two snapshots.
/// The events of a trace form one chain from its base to its final
/// snapshot, through the mapping and forest stages to completion.
pub open spec fn ratio_trace_linked(trace: MinimumRatioCycleTraceResult) -> bool {
    let last = trace.events@.len() - 1;
    &&& trace.events@.len() >= 2
    &&& ratio_snapshots_linked(trace.events@[0].before, trace.base_snapshot)
    &&& forall|i: int| 0 < i < trace.events@.len() ==> ratio_snapshots_linked((#[trigger] trace.events@[i]).before, trace.events@[i - 1].after)
    &&& ratio_snapshots_linked(trace.events@[last].after, trace.final_snapshot)
    &&& trace.events@[0].after.stage == MinimumRatioCycleStage::MapGradientLength
    &&& trace.events@[1].after.stage == MinimumRatioCycleStage::BuildSpanningForest
    &&& trace.events@[last].after.stage == MinimumRatioCycleStage::Complete
}

/// Two snapshots agree on stage, counters and incumbent ratio: what joins
/// one published boundary to the next.
pub open spec fn ratio_snapshots_linked(a: MinimumRatioCycleSnapshot, b: MinimumRatioCycleSnapshot) -> bool {
    a.stage == b.stage && a.metrics == b.metrics && a.best_ratio == b.best_ratio
}

fn same_snapshot(a: &MinimumRatioCycleSnapshot, b: &MinimumRatioCycleSnapshot) -> (r: bool)
    ensures
        r ==> ratio_snapshots_linked(*a, *b),
        r == ratio_snapshots_equal(*a, *b),
{
    if a.nodes.len() != b.nodes.len() || a.edges.len() != b.edges.len() {
        return false;
    }
    let mut i: usize = 0;
    while i < a.nodes.len()
        invariant
            i <= a.nodes@.len(),
            a.nodes@.len() == b.nodes@.len(),
            a.edges@.len() == b.edges@.len(),
            forall|j: int| 0 <= j < i ==> node_states_equal(#[trigger] a.nodes@[j], b.nodes@[j]),
        decreases a.nodes@.len() - i,
    {
        if !same_node_state(&a.nodes[i], &b.nodes[i]) {
            return false;
        }
        i = i + 1;
    }
    let mut i: usize = 0;
    while i < a.edges.len()
        invariant
            i <= a.edges@.len(),
            a.edges@.len() == b.edges@.len(),
            a.nodes@.len() == b.nodes@.len(),
            forall|j: int| 0 <= j < a.nodes@.len() ==> node_states_equal(#[trigger] a.nodes@[j], b.nodes@[j]),
            forall|j: int| 0 <= j < i ==> edge_states_equal(#[trigger] a.edges@[j], b.edges@[j]),
        decreases a.edges@.len() - i,
    {
        if !same_edge_state(&a.edges[i], &b.edges[i]) {
            return false;
        }
        i = i + 1;
    }
    same_ratio(a.candidate_ratio, b.candidate_ratio) && same_ratio(a.best_ratio, b.best_ratio)
        && a.selected_edge_count == b.selected_edge_count && a.maximum_absolute_balance == b.maximum_absolute_balance
        && a.stage == b.stage && a.metrics == b.metrics
}

fn same_event(a: &MinimumRatioCycleTraceEvent, b: &MinimumRatioCycleTraceEvent) -> (r: bool)
    ensures
        r == ratio_events_equal(*a, *b),
{
    same_text(a.catalog_id, b.catalog_id) && same_snapshot(&a.before, &b.before) && same_snapshot(&a.after, &b.after)
}

fn same_result(a: &MinimumRatioCycleResult, b: &MinimumRatioCycleResult) -> (r: bool)
    ensures
        r ==> a.ratio == b.ratio && arcs_view(a.cycle@) == arcs_view(b.cycle@),
{
    if a.cycle.len() != b.cycle.len() {
        return false;
    }
    let mut i: usize = 0;
    while i < a.cycle.len()
        invariant
            i <= a.cycle@.len(),
            a.cycle@.len() == b.cycle@.len(),
            forall|j: int| 0 <= j < i ==> #[trigger] arcs_view(a.cycle@)[j] == arcs_view(b.cycle@)[j],
        decreases a.cycle@.len() - i,
    {
        if a.cycle[i].edge.compare(&b.cycle[i].edge) != 0 || a.cycle[i].sign != b.cycle[i].sign {
            return false;
        }
        i = i + 1;
    }
    proof {
        assert(arcs_view(a.cycle@) =~= arcs_view(b.cycle@));
    }
    same_ratio(a.ratio, b.ratio) && same_snapshot(&a.final_snapshot, &b.final_snapshot) && a.metrics == b.metrics
}

/// Solves one bounded exact source-level minimum-ratio-cycle primitive.
///
/// Rejects oversized instances (`AdmissionLimit`) and graphs that do not read
/// as undirected ratio instances (`GraphRequirement`); on success the result
/// has passed its terminal cross-checks, including the DFS oracle, and its
/// ratio is at most that of every signed simple cycle of the graph.
pub fn solve_minimum_ratio_cycle(graph: &FlowNetwork) -> (r: Result<MinimumRatioCycleResult, MinimumRatioCycleError>)
    ensures
        r == Err::<MinimumRatioCycleResult, Rcerr>(Rcerr::AdmissionLimit) <==> !ratio_admitted(*graph),
        r == Err::<MinimumRatioCycleResult, Rcerr>(Rcerr::GraphRequirement) <==> ratio_admitted(*graph) && !ratio_instance(*graph),
        r matches Ok(res) ==> terminal_ok(*graph, res) && ratio_minimal(*graph, res.ratio),
        r matches Ok(res) ==> (res.ratio matches Some(q) ==> lowest_terms(q)),
        r matches Ok(res) ==> (res.ratio matches Some(q) ==> exists|s: Seq<i8>| cycle_attains(*graph, q, s)
            && arcs_view(res.cycle@) == #[trigger] used_arcs(*graph, s, graph.m() as int) && published_orientation(*graph, s)),
{
    match run_internal(graph, false) {
        Ok(run) => Ok(run.result),
        Err(e) => Err(e),
    }
}

/// Records mapping, forest, cycle, incumbent, and certificate boundaries, and
/// checks the recorded trace before returning it.
pub fn trace_minimum_ratio_cycle(graph: &FlowNetwork) -> (r: Result<MinimumRatioCycleTraceResult, MinimumRatioCycleError>)
    ensures
        r == Err::<MinimumRatioCycleTraceResult, Rcerr>(Rcerr::AdmissionLimit) <==> !ratio_admitted(*graph),
        r == Err::<MinimumRatioCycleTraceResult, Rcerr>(Rcerr::GraphRequirement) <==> ratio_admitted(*graph) && !ratio_instance(*graph),
        r matches Ok(t) ==> terminal_ok(*graph, t.result) && ratio_minimal(*graph, t.result.ratio) && 5 <= t.events@.len() <= MINIMUM_RATIO_CYCLE_MAX_TRACE_EVENTS,
        r matches Ok(t) ==> (t.result.ratio matches Some(q) ==> lowest_terms(q)),
        r matches Ok(t) ==> ratio_trace_linked(t),
        r matches Ok(t) ==> (t.result.ratio matches Some(q) ==> exists|s: Seq<i8>| cycle_attains(*graph, q, s)
            && arcs_view(t.result.cycle@) == #[trigger] used_arcs(*graph, s, graph.m() as int) && published_orientation(*graph, s)),
{
    let run = match run_internal(graph, true) {
        Ok(run) => run,
        Err(e) => return Err(e),
    };
    let trace = MinimumRatioCycleTraceResult {
        final_snapshot: run.result.final_snapshot.clone(),
        result: run.result,
        base_snapshot: run.base_snapshot,
        events: run.events,
    };
    match check_minimum_ratio_cycle_trace(graph, &trace) {
        Ok(()) => Ok(trace),
        Err(_) => Err(Rcerr::TraceVerification),
    }
}

fn stage_at(events: &Vec<MinimumRatioCycleTraceEvent>, i: usize) -> (r: Option<MinimumRatioCycleStage>)
    ensures
        r is Some <==> i < events@.len(),
{
    if i < events.len() { Some(events[i].after.stage) } else { None }
}

/// Checks continuity, source-level stage identity, the terminal certificate,
/// and agreement with a fresh deterministic run.
#[verifier::rlimit(40)]
pub fn check_minimum_ratio_cycle_trace(graph: &FlowNetwork, trace: &MinimumRatioCycleTraceResult) -> (r: Result<(), MinimumRatioCycleError>)
    ensures
        r == Err::<(), Rcerr>(Rcerr::AdmissionLimit) <==> !ratio_admitted(*graph),
        r == Err::<(), Rcerr>(Rcerr::GraphRequirement) <==> ratio_admitted(*graph) && !ratio_instance(*graph),
        r is Ok ==> (trace.result.ratio matches Some(q) ==> lowest_terms(q)),
        r is Ok ==> terminal_ok(*graph, trace.result) && ratio_minimal(*graph, trace.result.ratio)
            && 5 <= trace.events@.len() <= MINIMUM_RATIO_CYCLE_MAX_TRACE_EVENTS,
        r is Ok ==> ratio_trace_linked(*trace),
        r is Ok ==> (trace.result.ratio matches Some(q) ==> exists|s: Seq<i8>| cycle_attains(*graph, q, s)
            && arcs_view(trace.result.cycle@) == #[trigger] used_arcs(*graph, s, graph.m() as int) && published_orientation(*graph, s)),
{
    validate_graph(graph)?;
    if !same_snapshot(&trace.base_snapshot, &base_snapshot(graph)) {
        return Err(Rcerr::TraceVerification);
    }
    let count = trace.events.len();
    if count < 5 || count > MINIMUM_RATIO_CYCLE_MAX_TRACE_EVENTS {
        return Err(Rcerr::TraceVerification);
    }
    let mut previous = &trace.base_snapshot;
    let mut i: usize = 0;
    while i < count
        invariant
            ratio_admitted(*graph),
            ratio_instance(*graph),
            count == trace.events@.len(),
            i <= count,
            i == 0 ==> *previous == trace.base_snapshot,
            i > 0 ==> *previous == trace.events@[i - 1].after,
            i > 0 ==> ratio_snapshots_linked(trace.events@[0].before, trace.base_snapshot),
            forall|j: int| 0 < j < i ==> ratio_snapshots_linked((#[trigger] trace.events@[j]).before, trace.events@[j - 1].after),
        decreases count - i,
    {
        if !same_snapshot(&trace.events[i].before, previous) {
            return Err(Rcerr::TraceVerification);
        }
        previous = &trace.events[i].after;
        i = i + 1;
    }
    if !same_snapshot(previous, &trace.final_snapshot)
        || !same_snapshot(&trace.final_snapshot, &trace.result.final_snapshot)
        || trace.result.metrics != trace.final_snapshot.metrics
        || trace.events[0].after.stage != MinimumRatioCycleStage::MapGradientLength
        || trace.events[1].after.stage != MinimumRatioCycleStage::BuildSpanningForest
        || trace.events[count - 1].after.stage != MinimumRatioCycleStage::Complete
    {
        return Err(Rcerr::TraceVerification);
    }
    let mut verify: Option<usize> = None;
    let mut i: usize = 0;
    while i < count
        invariant
            ratio_admitted(*graph),
            ratio_instance(*graph),
            count == trace.events@.len(),
            i <= count,
            verify matches Some(v) ==> v < count,
        decreases count - i,
    {
        if verify.is_none() && trace.events[i].after.stage == MinimumRatioCycleStage::VerifyCycleSpace {
            verify = Some(i);
        }
        i = i + 1;
    }
    let vi = match verify {
        Some(v) => v,
        None => return Err(Rcerr::TraceVerification),
    };
    if stage_at(&trace.events, vi + 1) != Some(MinimumRatioCycleStage::CheckExhaustiveOracle)
        || stage_at(&trace.events, vi + 2) != Some(MinimumRatioCycleStage::Complete)
    {
        return Err(Rcerr::TraceVerification);
    }
    let mut i: usize = 2;
    while i < vi
        invariant
            ratio_admitted(*graph),
            ratio_instance(*graph),
            count == trace.events@.len(),
            vi < count,
        decreases vi - i,
    {
        let stage = trace.events[i].after.stage;
        if stage != MinimumRatioCycleStage::InspectVector && stage != MinimumRatioCycleStage::EvaluateCycle
            && stage != MinimumRatioCycleStage::UpdateBest {
            return Err(Rcerr::TraceVerification);
        }
        i = i + 1;
    }
    match validate_terminal(graph, &trace.result) {
        Ok(()) => {},
        Err(_) => return Err(Rcerr::CycleInvariant),
    }
    let replay = match run_internal(graph, true) {
        Ok(run) => run,
        Err(_) => return Err(Rcerr::TraceVerification),
    };
    if !same_snapshot(&replay.base_snapshot, &trace.base_snapshot) || replay.events.len() != count
        || !same_result(&replay.result, &trace.result) {
        return Err(Rcerr::TraceVerification);
    }
    let mut i: usize = 0;
    while i < count
        invariant
            ratio_admitted(*graph),
            ratio_instance(*graph),
            terminal_ok(*graph, trace.result),
            ratio_minimal(*graph, trace.result.ratio),
            trace.result.ratio matches Some(q) ==> exists|s: Seq<i8>| cycle_attains(*graph, q, s)
                && arcs_view(trace.result.cycle@) == #[trigger] used_arcs(*graph, s, graph.m() as int),
            count == trace.events@.len(),
            5 <= count <= MINIMUM_RATIO_CYCLE_MAX_TRACE_EVENTS,
            count == replay.events@.len(),
            i <= count,
        decreases count - i,
    {
        if !same_event(&replay.events[i], &trace.events[i]) {
            return Err(Rcerr::TraceVerification);
        }
        i = i + 1;
    }
    Ok(())
}

} // verus!
