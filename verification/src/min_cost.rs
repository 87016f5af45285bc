//! Exact successive-shortest-path minimum-cost flow solvers.
use vstd::prelude::*;
use vstd::string::StringSliceAdditionalSpecFns;
use vstd::utf8::encode_utf8;

use crate::augmenting::{first_least_room, room_of, Arc, ArcNet};
use crate::ids::same_text;
use crate::certificate::{
    certified_min_cost, check_min_cost_flow, divergences, residual_potentials, wide,
    CertificateError, MinCostFlowCertificate,
};
use crate::feasibility::{lower_flow, FeasibilityError, FeasibilityExecution, FeasibilityUse};
use crate::flows::{divergence, feasible_flow, ints, is_min_cost_flow, within_bounds};
use crate::max_flow::{clone_arcs, clone_labels, clone_usizes};
use crate::model::FlowNetwork;
use crate::trace::{names_node_at, replay_back, replay_through, replayable, TraceView, trace_replays, trace_view, 
    apply_trace_event, node_entity_ref, record_view, residual_arc_entity_refs, residual_arc_refs,
    residual_path_node_order, same_u64s, snapshots_equal, FlowTraceDirection, FlowTraceEntityRef,
    FlowTraceError, FlowTraceEvent, FlowTraceEventMetadata, FlowTraceMetrics, FlowTraceRecorder,
    FlowTraceSnapshot, TraceGranularityV1,
};

verus! {

/// Conservative interactive admission limit for Bellman–Ford SSP.
pub const BELLMAN_FORD_SSP_MAX_NODES: usize = 2_000;
/// Conservative interactive edge admission limit for Bellman–Ford SSP.
pub const BELLMAN_FORD_SSP_MAX_EDGES: usize = 20_000;
/// Deterministic safety guard against pseudo-polynomial augmentation counts.
pub const BELLMAN_FORD_SSP_MAX_AUGMENTATIONS: u64 = 1_000_000;

/// Conservative interactive admission limit for potential + Dijkstra SSP.
pub const POTENTIAL_DIJKSTRA_SSP_MAX_NODES: usize = 2_000;
/// Conservative interactive edge admission limit for potential + Dijkstra SSP.
pub const POTENTIAL_DIJKSTRA_SSP_MAX_EDGES: usize = 20_000;
/// Deterministic safety guard against pseudo-polynomial augmentation counts.
pub const POTENTIAL_DIJKSTRA_SSP_MAX_AUGMENTATIONS: u64 = 1_000_000;

/// Exact deterministic counters from Bellman–Ford SSP.
#[derive(Clone, Copy, Debug, Default, Eq, PartialEq)]
pub struct BellmanFordSspMetrics {
    /// Successful residual path augmentations.
    pub augmentations: u64,
    /// Bellman–Ford outer relaxation passes.
    pub relaxation_passes: u64,
    /// Positive residual arcs inspected during relaxation.
    pub residual_arc_scans: u128,
}

/// Certified canonical minimum-cost-flow result.
#[derive(Clone, Debug, Eq, PartialEq)]
pub struct BellmanFordSspResult {
    /// Original-edge flows in canonical edge-ID order.
    pub flows: Vec<u64>,
    /// Independently reconstructed objective and dual certificate.
    pub certificate: MinCostFlowCertificate,
    /// Deterministic kernel counters.
    pub metrics: BellmanFordSspMetrics,
}

/// Certified Bellman–Ford SSP result with reversible search/augmentation events.
#[derive(Clone, Debug, Eq, PartialEq)]
pub struct BellmanFordSspTraceResult {
    /// Same canonical result produced by the fast profile.
    pub result: BellmanFordSspResult,
    /// Replay boundary at the lower-bound pseudoflow.
    pub base_snapshot: FlowTraceSnapshot,
    /// Canonical reversible event sequence.
    pub events: Vec<FlowTraceEvent>,
    /// Replay boundary after verified minimum-cost optimality.
    pub final_snapshot: FlowTraceSnapshot,
}

/// Canonical result of Jewell's successive-shortest-path method.
pub type SuccessiveShortestPathResult = BellmanFordSspResult;

/// Reversible result of Jewell's successive-shortest-path method.
pub type SuccessiveShortestPathTraceResult = BellmanFordSspTraceResult;

/// Construction or verification failure for successive shortest path.
pub type SuccessiveShortestPathError = BellmanFordSspError;

/// Independent trace-contract failure for successive shortest path.
#[derive(Clone, Copy, Debug, Eq, PartialEq)]
pub enum SuccessiveShortestPathTraceCheckError {
    /// A reversible event failed its before/after transaction contract.
    Trace(FlowTraceError),
    /// An augmentation boundary was not minimum-cost for its current balance.
    Certificate(CertificateError),
    /// A trace event did not belong to the successive-shortest-path vocabulary.
    UnexpectedEvent,
    /// Forward or reverse replay did not reach the declared boundary.
    BoundaryMismatch,
}

/// Bellman–Ford SSP construction or verification failure.
#[derive(Clone, Copy, Debug, Eq, PartialEq)]
pub enum BellmanFordSspError {
    /// Input exceeds the practical admission band.
    AdmissionLimit,
    /// The pseudo-polynomial augmentation guard was reached.
    AugmentationLimit,
    /// A feasibility precheck proved that the requested balances are impossible.
    Feasibility(FeasibilityError),
    /// Initial compatibility or final independent certificate failed.
    Certificate(CertificateError),
    /// Checked exact arithmetic exceeded its declared domain.
    ArithmeticOverflow,
    /// A feasible precheck and the SSP residual search disagreed.
    MissingPath,
    /// A shortest-path predecessor chain was inconsistent.
    PredecessorInvariant,
    /// Reversible trace construction contradicted algorithm state.
    Trace(FlowTraceError),
}

/// Exact deterministic counters from potential + Dijkstra SSP.
#[derive(Clone, Copy, Debug, Default, Eq, PartialEq)]
pub struct PotentialDijkstraSspMetrics {
    /// Successful residual path augmentations.
    pub augmentations: u64,
    /// Complete reduced-cost Dijkstra searches.
    pub dijkstra_runs: u64,
    /// Vertices permanently settled across all Dijkstra searches.
    pub settled_nodes: u128,
    /// Positive residual arcs inspected by Dijkstra.
    pub residual_arc_scans: u128,
    /// Dual-potential update phases.
    pub potential_updates: u64,
}

/// Certified canonical potential + Dijkstra SSP result.
#[derive(Clone, Debug, Eq, PartialEq)]
pub struct PotentialDijkstraSspResult {
    /// Original-edge flows in canonical edge-ID order.
    pub flows: Vec<u64>,
    /// Independently reconstructed objective and dual certificate.
    pub certificate: MinCostFlowCertificate,
    /// Deterministic kernel counters.
    pub metrics: PotentialDijkstraSspMetrics,
}

/// Certified potential + Dijkstra SSP result with reversible events.
#[derive(Clone, Debug, Eq, PartialEq)]
pub struct PotentialDijkstraSspTraceResult {
    /// Same canonical result produced by the fast profile.
    pub result: PotentialDijkstraSspResult,
    /// Replay boundary at the lower-bound pseudoflow.
    pub base_snapshot: FlowTraceSnapshot,
    /// Canonical reversible event sequence.
    pub events: Vec<FlowTraceEvent>,
    /// Replay boundary after verified minimum-cost optimality.
    pub final_snapshot: FlowTraceSnapshot,
}

/// Potential + Dijkstra SSP construction or verification failure.
#[derive(Clone, Copy, Debug, Eq, PartialEq)]
pub enum PotentialDijkstraSspError {
    /// Input exceeds the practical admission band.
    AdmissionLimit,
    /// The pseudo-polynomial augmentation guard was reached.
    AugmentationLimit,
    /// A feasibility precheck proved that the requested balances are impossible.
    Feasibility(FeasibilityError),
    /// Initial compatibility or final independent certificate failed.
    Certificate(CertificateError),
    /// Checked exact arithmetic exceeded its declared domain.
    ArithmeticOverflow,
    /// A feasible precheck and the SSP residual search disagreed.
    MissingPath,
    /// A shortest-path predecessor chain was inconsistent.
    PredecessorInvariant,
    /// A residual arc violated the nonnegative reduced-cost invariant.
    NegativeReducedCost,
    /// Reversible trace construction contradicted algorithm state.
    Trace(FlowTraceError),
}

/// Which event vocabulary a successive-shortest-path run publishes.
#[derive(Clone, Copy, Debug, PartialEq, Eq)]
pub enum SspTraceIdentity {
    /// The Bellman–Ford SSP catalogue.
    BellmanFord,
    /// Jewell's successive-shortest-path catalogue.
    SuccessiveShortestPath,
}

/// The text of the event identity of one SSP step.
pub open spec fn event_text(identity: SspTraceIdentity, suffix: Seq<u8>) -> Seq<char> {
    match identity {
        SspTraceIdentity::BellmanFord => {
            if suffix == "shortest-path".spec_bytes() { "bellman-ford-ssp.shortest-path"@ }
            else if suffix == "select-source".spec_bytes() { "bellman-ford-ssp.select-source"@ }
            else if suffix == "inspect-residual-arc".spec_bytes() { "bellman-ford-ssp.inspect-residual-arc"@ }
            else if suffix == "relax".spec_bytes() { "bellman-ford-ssp.relax"@ }
            else if suffix == "reconstruct-path".spec_bytes() { "bellman-ford-ssp.reconstruct-path"@ }
            else if suffix == "bottleneck".spec_bytes() { "bellman-ford-ssp.bottleneck"@ }
            else if suffix == "augment".spec_bytes() { "bellman-ford-ssp.augment"@ }
            else if suffix == "optimal".spec_bytes() { "bellman-ford-ssp.optimal"@ }
            else { "successive-shortest-path.invalid-event"@ }
        },
        SspTraceIdentity::SuccessiveShortestPath => {
            if suffix == "shortest-path".spec_bytes() { "successive-shortest-path.shortest-path"@ }
            else if suffix == "select-source".spec_bytes() { "successive-shortest-path.select-source"@ }
            else if suffix == "inspect-residual-arc".spec_bytes() { "successive-shortest-path.inspect-residual-arc"@ }
            else if suffix == "relax".spec_bytes() { "successive-shortest-path.relax"@ }
            else if suffix == "reconstruct-path".spec_bytes() { "successive-shortest-path.reconstruct-path"@ }
            else if suffix == "bottleneck".spec_bytes() { "successive-shortest-path.bottleneck"@ }
            else if suffix == "augment".spec_bytes() { "successive-shortest-path.augment"@ }
            else if suffix == "optimal".spec_bytes() { "successive-shortest-path.optimal"@ }
            else { "successive-shortest-path.invalid-event"@ }
        },
    }
}

/// The text of the pseudocode line of one SSP step.
pub open spec fn pseudocode_text(identity: SspTraceIdentity, suffix: Seq<u8>) -> Seq<char> {
    match identity {
        SspTraceIdentity::BellmanFord => {
            if suffix == "shortest-path".spec_bytes() { "bellman-ford-ssp:relax-residual-arcs"@ }
            else if suffix == "select-source".spec_bytes() { "bellman-ford-ssp:select-surplus-source"@ }
            else if suffix == "inspect-residual-arc".spec_bytes() { "bellman-ford-ssp:inspect-one-residual-arc"@ }
            else if suffix == "relax".spec_bytes() { "bellman-ford-ssp:relax-one-residual-arc"@ }
            else if suffix == "reconstruct-path".spec_bytes() { "bellman-ford-ssp:follow-predecessor-edge"@ }
            else if suffix == "bottleneck".spec_bytes() { "bellman-ford-ssp:measure-bottleneck"@ }
            else if suffix == "augment".spec_bytes() { "bellman-ford-ssp:augment-shortest-path"@ }
            else if suffix == "optimal".spec_bytes() { "bellman-ford-ssp:return-minimum-cost-flow"@ }
            else { "successive-shortest-path:invalid-event"@ }
        },
        SspTraceIdentity::SuccessiveShortestPath => {
            if suffix == "shortest-path".spec_bytes() { "successive-shortest-path:find-minimum-cost-residual-path"@ }
            else if suffix == "select-source".spec_bytes() { "successive-shortest-path:select-surplus-source"@ }
            else if suffix == "inspect-residual-arc".spec_bytes() { "successive-shortest-path:inspect-one-residual-arc"@ }
            else if suffix == "relax".spec_bytes() { "successive-shortest-path:relax-one-residual-arc"@ }
            else if suffix == "reconstruct-path".spec_bytes() { "successive-shortest-path:follow-predecessor-edge"@ }
            else if suffix == "bottleneck".spec_bytes() { "successive-shortest-path:measure-bottleneck"@ }
            else if suffix == "augment".spec_bytes() { "successive-shortest-path:augment-bottleneck"@ }
            else if suffix == "optimal".spec_bytes() { "successive-shortest-path:return-minimum-cost-flow"@ }
            else { "successive-shortest-path:invalid-event"@ }
        },
    }
}

/// Event identity of one SSP step.
pub fn event_id(identity: SspTraceIdentity, suffix: &str) -> (r: &'static str)
    ensures
        r@ == event_text(identity, suffix.spec_bytes()),
{
    match identity {
        SspTraceIdentity::BellmanFord => {
            if same_text(suffix, "shortest-path") { "bellman-ford-ssp.shortest-path" }
            else if same_text(suffix, "select-source") { "bellman-ford-ssp.select-source" }
            else if same_text(suffix, "inspect-residual-arc") { "bellman-ford-ssp.inspect-residual-arc" }
            else if same_text(suffix, "relax") { "bellman-ford-ssp.relax" }
            else if same_text(suffix, "reconstruct-path") { "bellman-ford-ssp.reconstruct-path" }
            else if same_text(suffix, "bottleneck") { "bellman-ford-ssp.bottleneck" }
            else if same_text(suffix, "augment") { "bellman-ford-ssp.augment" }
            else if same_text(suffix, "optimal") { "bellman-ford-ssp.optimal" }
            else { "successive-shortest-path.invalid-event" }
        },
        SspTraceIdentity::SuccessiveShortestPath => {
            if same_text(suffix, "shortest-path") { "successive-shortest-path.shortest-path" }
            else if same_text(suffix, "select-source") { "successive-shortest-path.select-source" }
            else if same_text(suffix, "inspect-residual-arc") { "successive-shortest-path.inspect-residual-arc" }
            else if same_text(suffix, "relax") { "successive-shortest-path.relax" }
            else if same_text(suffix, "reconstruct-path") { "successive-shortest-path.reconstruct-path" }
            else if same_text(suffix, "bottleneck") { "successive-shortest-path.bottleneck" }
            else if same_text(suffix, "augment") { "successive-shortest-path.augment" }
            else if same_text(suffix, "optimal") { "successive-shortest-path.optimal" }
            else { "successive-shortest-path.invalid-event" }
        },
    }
}

/// Pseudocode line of one SSP step.
pub fn pseudocode_line(identity: SspTraceIdentity, suffix: &str) -> (r: &'static str)
    ensures
        r@ == pseudocode_text(identity, suffix.spec_bytes()),
{
    match identity {
        SspTraceIdentity::BellmanFord => {
            if same_text(suffix, "shortest-path") { "bellman-ford-ssp:relax-residual-arcs" }
            else if same_text(suffix, "select-source") { "bellman-ford-ssp:select-surplus-source" }
            else if same_text(suffix, "inspect-residual-arc") { "bellman-ford-ssp:inspect-one-residual-arc" }
            else if same_text(suffix, "relax") { "bellman-ford-ssp:relax-one-residual-arc" }
            else if same_text(suffix, "reconstruct-path") { "bellman-ford-ssp:follow-predecessor-edge" }
            else if same_text(suffix, "bottleneck") { "bellman-ford-ssp:measure-bottleneck" }
            else if same_text(suffix, "augment") { "bellman-ford-ssp:augment-shortest-path" }
            else if same_text(suffix, "optimal") { "bellman-ford-ssp:return-minimum-cost-flow" }
            else { "successive-shortest-path:invalid-event" }
        },
        SspTraceIdentity::SuccessiveShortestPath => {
            if same_text(suffix, "shortest-path") { "successive-shortest-path:find-minimum-cost-residual-path" }
            else if same_text(suffix, "select-source") { "successive-shortest-path:select-surplus-source" }
            else if same_text(suffix, "inspect-residual-arc") { "successive-shortest-path:inspect-one-residual-arc" }
            else if same_text(suffix, "relax") { "successive-shortest-path:relax-one-residual-arc" }
            else if same_text(suffix, "reconstruct-path") { "successive-shortest-path:follow-predecessor-edge" }
            else if same_text(suffix, "bottleneck") { "successive-shortest-path:measure-bottleneck" }
            else if same_text(suffix, "augment") { "successive-shortest-path:augment-bottleneck" }
            else if same_text(suffix, "optimal") { "successive-shortest-path:return-minimum-cost-flow" }
            else { "successive-shortest-path:invalid-event" }
        },
    }
}

fn meta(identity: SspTraceIdentity, suffix: &str, minimum_granularity: TraceGranularityV1) -> (r: FlowTraceEventMetadata)
    ensures
        r.catalog_id@ == event_text(identity, suffix.spec_bytes()),
        r.minimum_granularity == minimum_granularity,
        r.pseudocode_line@ == pseudocode_text(identity, suffix.spec_bytes()),
{
    FlowTraceEventMetadata { catalog_id: event_id(identity, suffix), minimum_granularity, pseudocode_line: pseudocode_line(identity, suffix) }
}

/// Too many nodes or edges for Bellman–Ford SSP.
pub open spec fn ssp_over_admission(g: FlowNetwork) -> bool {
    g.n() > BELLMAN_FORD_SSP_MAX_NODES || g.m() > BELLMAN_FORD_SSP_MAX_EDGES
}

/// Too many nodes or edges for potential + Dijkstra SSP.
pub open spec fn dijkstra_over_admission(g: FlowNetwork) -> bool {
    g.n() > POTENTIAL_DIJKSTRA_SSP_MAX_NODES || g.m() > POTENTIAL_DIJKSTRA_SSP_MAX_EDGES
}

/// Solves an exact balanced min-cost flow from the lower-bound pseudoflow,
/// routing each canonical surplus along a current shortest residual path.
pub fn solve_bellman_ford_ssp(graph: &FlowNetwork, required_divergence: &[i128]) -> (r: Result<BellmanFordSspResult, BellmanFordSspError>)
    ensures
        r matches Ok(res) ==> certified_min_cost(*graph, required_divergence@, res.flows@, res.certificate),
        r matches Ok(res) ==> res.metrics.augmentations <= BELLMAN_FORD_SSP_MAX_AUGMENTATIONS,
        r matches Ok(res) ==> res.metrics.augmentations <= unmet_at_lower(*graph, required_divergence@),
        unmet_at_lower(*graph, required_divergence@) <= BELLMAN_FORD_SSP_MAX_AUGMENTATIONS
            ==> !(r matches Err(BellmanFordSspError::AugmentationLimit)),
        r == Err::<BellmanFordSspResult, BellmanFordSspError>(BellmanFordSspError::AdmissionLimit) <==> ssp_over_admission(*graph),
        r == Err::<BellmanFordSspResult, BellmanFordSspError>(BellmanFordSspError::Feasibility(FeasibilityError::LengthMismatch))
            <==> !ssp_over_admission(*graph) && required_divergence@.len() != graph.n(),
        r == Err::<BellmanFordSspResult, BellmanFordSspError>(BellmanFordSspError::Feasibility(FeasibilityError::Infeasible))
            ==> forall|f: Seq<int>| !#[trigger] feasible_flow(*graph, f, wide(required_divergence@)),
{
    let mut feasibility = FeasibilityExecution::untracked();
    match ssp_internal(graph, required_divergence, false, SspTraceIdentity::BellmanFord, &mut feasibility) {
        Ok(run) => Ok(run.0),
        Err(e) => Err(e),
    }
}

/// Solves Bellman–Ford SSP while reporting its feasibility precheck to the
/// enclosing execution.
pub fn solve_bellman_ford_ssp_with_feasibility(
    graph: &FlowNetwork,
    required_divergence: &[i128],
    feasibility: &mut FeasibilityExecution,
) -> (r: Result<BellmanFordSspResult, BellmanFordSspError>)
    ensures
        r matches Err(e) ==> (e is AdmissionLimit ==> *final(feasibility) == *old(feasibility)),
        r matches Ok(res) ==> certified_min_cost(*graph, required_divergence@, res.flows@, res.certificate),
        r matches Ok(res) ==> res.metrics.augmentations <= BELLMAN_FORD_SSP_MAX_AUGMENTATIONS,
        r matches Ok(res) ==> res.metrics.augmentations <= unmet_at_lower(*graph, required_divergence@),
        unmet_at_lower(*graph, required_divergence@) <= BELLMAN_FORD_SSP_MAX_AUGMENTATIONS
            ==> !(r matches Err(BellmanFordSspError::AugmentationLimit)),
        r == Err::<BellmanFordSspResult, BellmanFordSspError>(BellmanFordSspError::AdmissionLimit) <==> ssp_over_admission(*graph),
        r == Err::<BellmanFordSspResult, BellmanFordSspError>(BellmanFordSspError::Feasibility(FeasibilityError::LengthMismatch))
            <==> !ssp_over_admission(*graph) && required_divergence@.len() != graph.n(),
        r == Err::<BellmanFordSspResult, BellmanFordSspError>(BellmanFordSspError::Feasibility(FeasibilityError::Infeasible))
            ==> forall|f: Seq<int>| !#[trigger] feasible_flow(*graph, f, wide(required_divergence@)),
{
    match ssp_internal(graph, required_divergence, false, SspTraceIdentity::BellmanFord, feasibility) {
        Ok(run) => Ok(run.0),
        Err(e) => Err(e),
    }
}

/// Solves Jewell's successive-shortest-path method with a deterministic
/// Bellman–Ford shortest-path subroutine.
pub fn solve_successive_shortest_path(graph: &FlowNetwork, required_divergence: &[i128]) -> (r: Result<SuccessiveShortestPathResult, SuccessiveShortestPathError>)
    ensures
        r matches Ok(res) ==> certified_min_cost(*graph, required_divergence@, res.flows@, res.certificate),
        r matches Ok(res) ==> res.metrics.augmentations <= BELLMAN_FORD_SSP_MAX_AUGMENTATIONS,
        r matches Ok(res) ==> res.metrics.augmentations <= unmet_at_lower(*graph, required_divergence@),
        unmet_at_lower(*graph, required_divergence@) <= BELLMAN_FORD_SSP_MAX_AUGMENTATIONS
            ==> !(r matches Err(BellmanFordSspError::AugmentationLimit)),
        r == Err::<BellmanFordSspResult, BellmanFordSspError>(BellmanFordSspError::AdmissionLimit) <==> ssp_over_admission(*graph),
        r == Err::<BellmanFordSspResult, BellmanFordSspError>(BellmanFordSspError::Feasibility(FeasibilityError::LengthMismatch))
            <==> !ssp_over_admission(*graph) && required_divergence@.len() != graph.n(),
        r == Err::<BellmanFordSspResult, BellmanFordSspError>(BellmanFordSspError::Feasibility(FeasibilityError::Infeasible))
            ==> forall|f: Seq<int>| !#[trigger] feasible_flow(*graph, f, wide(required_divergence@)),
{
    let mut feasibility = FeasibilityExecution::untracked();
    match ssp_internal(graph, required_divergence, false, SspTraceIdentity::SuccessiveShortestPath, &mut feasibility) {
        Ok(run) => Ok(run.0),
        Err(e) => Err(e),
    }
}

/// Solves Jewell SSP while reporting its feasibility precheck to the enclosing
/// execution.
pub fn solve_successive_shortest_path_with_feasibility(
    graph: &FlowNetwork,
    required_divergence: &[i128],
    feasibility: &mut FeasibilityExecution,
) -> (r: Result<SuccessiveShortestPathResult, SuccessiveShortestPathError>)
    ensures
        r matches Err(e) ==> (e is AdmissionLimit ==> *final(feasibility) == *old(feasibility)),
        r matches Ok(res) ==> certified_min_cost(*graph, required_divergence@, res.flows@, res.certificate),
        r matches Ok(res) ==> res.metrics.augmentations <= BELLMAN_FORD_SSP_MAX_AUGMENTATIONS,
        r matches Ok(res) ==> res.metrics.augmentations <= unmet_at_lower(*graph, required_divergence@),
        unmet_at_lower(*graph, required_divergence@) <= BELLMAN_FORD_SSP_MAX_AUGMENTATIONS
            ==> !(r matches Err(BellmanFordSspError::AugmentationLimit)),
        r == Err::<BellmanFordSspResult, BellmanFordSspError>(BellmanFordSspError::AdmissionLimit) <==> ssp_over_admission(*graph),
        r == Err::<BellmanFordSspResult, BellmanFordSspError>(BellmanFordSspError::Feasibility(FeasibilityError::LengthMismatch))
            <==> !ssp_over_admission(*graph) && required_divergence@.len() != graph.n(),
        r == Err::<BellmanFordSspResult, BellmanFordSspError>(BellmanFordSspError::Feasibility(FeasibilityError::Infeasible))
            ==> forall|f: Seq<int>| !#[trigger] feasible_flow(*graph, f, wide(required_divergence@)),
{
    match ssp_internal(graph, required_divergence, false, SspTraceIdentity::SuccessiveShortestPath, feasibility) {
        Ok(run) => Ok(run.0),
        Err(e) => Err(e),
    }
}

fn traced(run: (BellmanFordSspResult, Option<TraceParts>)) -> (r: Result<BellmanFordSspTraceResult, BellmanFordSspError>)
    requires
        run.1 matches Some(t) ==> replayable(t),
    ensures
        r matches Ok(t) ==> trace_replays(trace_view(t.base_snapshot), t.events@, trace_view(t.final_snapshot)),
        r matches Ok(t) ==> t.result == run.0,
        r is Err ==> r == Err::<BellmanFordSspTraceResult, BellmanFordSspError>(BellmanFordSspError::PredecessorInvariant),
{
    match run.1 {
        Some((base_snapshot, events, final_snapshot)) => Ok(BellmanFordSspTraceResult { result: run.0, base_snapshot, events, final_snapshot }),
        None => Err(BellmanFordSspError::PredecessorInvariant),
    }
}

/// Solves Bellman–Ford SSP while recording every shortest-path phase and
/// residual augmentation.
pub fn trace_bellman_ford_ssp(graph: &FlowNetwork, required_divergence: &[i128]) -> (r: Result<BellmanFordSspTraceResult, BellmanFordSspError>)
    ensures
        r matches Ok(res) ==> certified_min_cost(*graph, required_divergence@, res.result.flows@, res.result.certificate),
        r matches Ok(res) ==> res.result.metrics.augmentations <= BELLMAN_FORD_SSP_MAX_AUGMENTATIONS,
        r matches Ok(res) ==> res.result.metrics.augmentations <= unmet_at_lower(*graph, required_divergence@),
        unmet_at_lower(*graph, required_divergence@) <= BELLMAN_FORD_SSP_MAX_AUGMENTATIONS
            ==> !(r matches Err(BellmanFordSspError::AugmentationLimit)),
        r matches Ok(res) ==> trace_replays(trace_view(res.base_snapshot), res.events@, trace_view(res.final_snapshot)),
        r == Err::<BellmanFordSspTraceResult, BellmanFordSspError>(BellmanFordSspError::AdmissionLimit) <==> ssp_over_admission(*graph),
{
    let mut feasibility = FeasibilityExecution::untracked();
    traced(ssp_internal(graph, required_divergence, true, SspTraceIdentity::BellmanFord, &mut feasibility)?)
}

/// Runs successive shortest path with its own reversible event vocabulary.
pub fn trace_successive_shortest_path(graph: &FlowNetwork, required_divergence: &[i128]) -> (r: Result<SuccessiveShortestPathTraceResult, SuccessiveShortestPathError>)
    ensures
        r matches Ok(res) ==> certified_min_cost(*graph, required_divergence@, res.result.flows@, res.result.certificate),
        r matches Ok(res) ==> res.result.metrics.augmentations <= BELLMAN_FORD_SSP_MAX_AUGMENTATIONS,
        r matches Ok(res) ==> res.result.metrics.augmentations <= unmet_at_lower(*graph, required_divergence@),
        unmet_at_lower(*graph, required_divergence@) <= BELLMAN_FORD_SSP_MAX_AUGMENTATIONS
            ==> !(r matches Err(BellmanFordSspError::AugmentationLimit)),
        r matches Ok(res) ==> trace_replays(trace_view(res.base_snapshot), res.events@, trace_view(res.final_snapshot)),
        r == Err::<BellmanFordSspTraceResult, BellmanFordSspError>(BellmanFordSspError::AdmissionLimit) <==> ssp_over_admission(*graph),
{
    let mut feasibility = FeasibilityExecution::untracked();
    traced(ssp_internal(graph, required_divergence, true, SspTraceIdentity::SuccessiveShortestPath, &mut feasibility)?)
}

/// Traces Bellman–Ford SSP while publishing its feasibility precheck to the
/// enclosing execution.
pub fn trace_bellman_ford_ssp_with_feasibility(
    graph: &FlowNetwork,
    required_divergence: &[i128],
    feasibility: &mut FeasibilityExecution,
) -> (r: Result<BellmanFordSspTraceResult, BellmanFordSspError>)
    ensures
        r matches Err(e) ==> (e is AdmissionLimit ==> *final(feasibility) == *old(feasibility)),
        r matches Ok(res) ==> certified_min_cost(*graph, required_divergence@, res.result.flows@, res.result.certificate),
        r matches Ok(res) ==> res.result.metrics.augmentations <= BELLMAN_FORD_SSP_MAX_AUGMENTATIONS,
        r matches Ok(res) ==> res.result.metrics.augmentations <= unmet_at_lower(*graph, required_divergence@),
        unmet_at_lower(*graph, required_divergence@) <= BELLMAN_FORD_SSP_MAX_AUGMENTATIONS
            ==> !(r matches Err(BellmanFordSspError::AugmentationLimit)),
        r matches Ok(res) ==> trace_replays(trace_view(res.base_snapshot), res.events@, trace_view(res.final_snapshot)),
        r == Err::<BellmanFordSspTraceResult, BellmanFordSspError>(BellmanFordSspError::AdmissionLimit) <==> ssp_over_admission(*graph),
{
    traced(ssp_internal(graph, required_divergence, true, SspTraceIdentity::BellmanFord, feasibility)?)
}

/// Traces Jewell SSP while publishing its feasibility precheck to the
/// enclosing execution.
pub fn trace_successive_shortest_path_with_feasibility(
    graph: &FlowNetwork,
    required_divergence: &[i128],
    feasibility: &mut FeasibilityExecution,
) -> (r: Result<SuccessiveShortestPathTraceResult, SuccessiveShortestPathError>)
    ensures
        r matches Err(e) ==> (e is AdmissionLimit ==> *final(feasibility) == *old(feasibility)),
        r matches Ok(res) ==> certified_min_cost(*graph, required_divergence@, res.result.flows@, res.result.certificate),
        r matches Ok(res) ==> res.result.metrics.augmentations <= BELLMAN_FORD_SSP_MAX_AUGMENTATIONS,
        r matches Ok(res) ==> res.result.metrics.augmentations <= unmet_at_lower(*graph, required_divergence@),
        unmet_at_lower(*graph, required_divergence@) <= BELLMAN_FORD_SSP_MAX_AUGMENTATIONS
            ==> !(r matches Err(BellmanFordSspError::AugmentationLimit)),
        r matches Ok(res) ==> trace_replays(trace_view(res.base_snapshot), res.events@, trace_view(res.final_snapshot)),
        r == Err::<BellmanFordSspTraceResult, BellmanFordSspError>(BellmanFordSspError::AdmissionLimit) <==> ssp_over_admission(*graph),
{
    traced(ssp_internal(graph, required_divergence, true, SspTraceIdentity::SuccessiveShortestPath, feasibility)?)
}

/// Class of a Jewell SSP event identity: 1 for a search step, 2 for an
/// augmentation or the final event, 0 for anything else.
pub open spec fn ssp_event_class(id: Seq<u8>) -> u8 {
    if id == "successive-shortest-path.select-source".spec_bytes()
        || id == "successive-shortest-path.inspect-residual-arc".spec_bytes()
        || id == "successive-shortest-path.relax".spec_bytes()
        || id == "successive-shortest-path.shortest-path".spec_bytes()
        || id == "successive-shortest-path.reconstruct-path".spec_bytes()
        || id == "successive-shortest-path.bottleneck".spec_bytes() {
        1
    } else if id == "successive-shortest-path.augment".spec_bytes()
        || id == "successive-shortest-path.optimal".spec_bytes() {
        2
    } else {
        0
    }
}

fn is_ssp_event(catalog_id: &str) -> (r: u8)
    ensures
        r == ssp_event_class(catalog_id.spec_bytes()),
{
    if same_text(catalog_id, "successive-shortest-path.select-source")
        || same_text(catalog_id, "successive-shortest-path.inspect-residual-arc")
        || same_text(catalog_id, "successive-shortest-path.relax")
        || same_text(catalog_id, "successive-shortest-path.shortest-path")
        || same_text(catalog_id, "successive-shortest-path.reconstruct-path")
        || same_text(catalog_id, "successive-shortest-path.bottleneck") {
        1
    } else if same_text(catalog_id, "successive-shortest-path.augment")
        || same_text(catalog_id, "successive-shortest-path.optimal") {
        2
    } else {
        0
    }
}

/// A snapshot whose flows and labels match the graph's edges and nodes.
pub open spec fn shaped(g: FlowNetwork, s: FlowTraceSnapshot) -> bool {
    s.flows@.len() == g.m() && s.node_labels@.len() == g.n()
}

/// The divergence of every node under `f`.
pub open spec fn divergence_seq(g: FlowNetwork, f: Seq<int>) -> Seq<int> {
    Seq::new(g.n(), |v: int| divergence(g, f, v))
}

/// A replayed state whose flows are a minimum-cost flow for their own
/// divergences.
pub open spec fn boundary_min_cost(g: FlowNetwork, w: Option<TraceView>) -> bool {
    w matches Some(x) && is_min_cost_flow(g, ints(x.0), divergence_seq(g, ints(x.0)))
}

/// What the checker accepts: every event carries a successive-shortest-path
/// identity; forward replay from the base succeeds and reaches the final
/// snapshot's flows, labels and remaining divergence; the flows after every
/// augmentation or final event are minimum-cost for their own divergences;
/// the final flows are the result's and meet the required divergences; and
/// reverse replay from the reached state returns to the base's flows,
/// labels and remaining divergence.
pub open spec fn ssp_trace_accepted(g: FlowNetwork, required: Seq<i128>, run: SuccessiveShortestPathTraceResult) -> bool {
    let base = trace_view(run.base_snapshot);
    let len = run.events@.len() as int;
    &&& forall|i: int| 0 <= i < len ==> ssp_event_class(encode_utf8((#[trigger] run.events@[i]).catalog_id@)) != 0
    &&& forall|i: int| 0 <= i < len ==> (ssp_event_class(encode_utf8((#[trigger] run.events@[i]).catalog_id@)) == 2
        ==> boundary_min_cost(g, replay_through(base, run.events@, i + 1)))
    &&& replay_through(base, run.events@, len) matches Some(w) && {
        &&& w.0 == run.final_snapshot.flows@
        &&& w.1 == run.final_snapshot.node_labels@
        &&& w.4 == run.final_snapshot.remaining_divergence@
        &&& replay_back(w, run.events@, len) matches Some(b) && b.0 == run.base_snapshot.flows@
            && b.1 == run.base_snapshot.node_labels@ && b.4 == run.base_snapshot.remaining_divergence@
    }
    &&& run.result.flows@ == run.final_snapshot.flows@
    &&& required.len() == g.n()
    &&& forall|v: int| 0 <= v < g.n() ==> divergence(g, ints(run.result.flows@), v) == #[trigger] required[v]
}

/// Checks event identities, reversible replay, and Jewell's invariant that
/// every augmentation boundary is a minimum-cost flow for its own divergences.
pub fn check_successive_shortest_path_trace(
    graph: &FlowNetwork,
    required_divergence: &[i128],
    run: &SuccessiveShortestPathTraceResult,
) -> (r: Result<(), SuccessiveShortestPathTraceCheckError>)
    ensures
        r is Ok ==> run.result.flows@ == run.final_snapshot.flows@,
        r is Ok ==> ssp_trace_accepted(*graph, required_divergence@, *run),
        r == Err::<(), SuccessiveShortestPathTraceCheckError>(SuccessiveShortestPathTraceCheckError::UnexpectedEvent)
            ==> exists|i: int| 0 <= i < run.events@.len() && ssp_event_class(encode_utf8((#[trigger] run.events@[i]).catalog_id@)) == 0,
        r matches Err(SuccessiveShortestPathTraceCheckError::Trace(_)) ==> !shaped(*graph, run.base_snapshot)
            || (exists|k: int| 0 < k <= run.events@.len() && (#[trigger] replay_through(trace_view(run.base_snapshot), run.events@, k)) is None)
            || (replay_through(trace_view(run.base_snapshot), run.events@, run.events@.len() as int) matches Some(w)
                && replay_back(w, run.events@, run.events@.len() as int) is None),
{
    let ghost base = trace_view(run.base_snapshot);
    let ghost len = run.events@.len() as int;
    let mut replay = run.base_snapshot.duplicate();
    let mut i: usize = 0;
    while i < run.events.len()
        invariant
            i <= run.events@.len(),
            len == run.events@.len(),
            base == trace_view(run.base_snapshot),
            replay_through(base, run.events@, i as int) == Some(trace_view(replay)),
            shaped(*graph, replay) == shaped(*graph, run.base_snapshot),
            i > 0 ==> shaped(*graph, replay),
            forall|j: int| 0 <= j < i ==> ssp_event_class(encode_utf8((#[trigger] run.events@[j]).catalog_id@)) != 0,
            forall|j: int| 0 <= j < i ==> (ssp_event_class(encode_utf8((#[trigger] run.events@[j]).catalog_id@)) == 2
                ==> boundary_min_cost(*graph, replay_through(base, run.events@, j + 1))),
            forall|k: int| 0 < k <= i ==> (#[trigger] replay_through(base, run.events@, k)) is Some,
        decreases run.events@.len() - i,
    {
        let event = &run.events[i];
        let kind = is_ssp_event(event.catalog_id.as_str());
        if kind == 0 {
            return Err(SuccessiveShortestPathTraceCheckError::UnexpectedEvent);
        }
        let ghost before = trace_view(replay);
        match apply_trace_event(graph, &mut replay, event, FlowTraceDirection::Forward) {
            Ok(()) => {},
            Err(e) => {
                proof {
                    if shaped(*graph, run.base_snapshot) {
                        assert(replay_through(base, run.events@, i + 1) is None);
                    }
                }
                return Err(SuccessiveShortestPathTraceCheckError::Trace(e));
            },
        }
        proof {
            assert(replay_through(base, run.events@, i + 1) == Some(trace_view(replay)));
        }
        if kind == 2 {
            let current = match divergences(graph, replay.flows.as_slice()) {
                Ok(d) => d,
                Err(e) => return Err(SuccessiveShortestPathTraceCheckError::Certificate(e)),
            };
            match check_min_cost_flow(graph, current.as_slice(), replay.flows.as_slice()) {
                Ok(_) => {},
                Err(e) => return Err(SuccessiveShortestPathTraceCheckError::Certificate(e)),
            }
            proof {
                assert(wide(current@) =~= divergence_seq(*graph, ints(replay.flows@)));
            }
        }
        i = i + 1;
    }
    let ghost forward = trace_view(replay);
    if !snapshots_equal(&replay, &run.final_snapshot) || !same_u64s(&replay.flows, &run.result.flows) {
        return Err(SuccessiveShortestPathTraceCheckError::BoundaryMismatch);
    }
    let reached = match divergences(graph, replay.flows.as_slice()) {
        Ok(d) => d,
        Err(e) => return Err(SuccessiveShortestPathTraceCheckError::Certificate(e)),
    };
    if reached.len() != required_divergence.len() {
        return Err(SuccessiveShortestPathTraceCheckError::BoundaryMismatch);
    }
    let mut v: usize = 0;
    while v < reached.len()
        invariant
            v <= reached@.len(),
            reached@.len() == required_divergence@.len(),
            reached@.len() == graph.n(),
            replay.flows@ == run.final_snapshot.flows@,
            replay.flows@ == run.result.flows@,
            forall|u: int| 0 <= u < graph.n() ==> #[trigger] reached@[u] == divergence(*graph, ints(replay.flows@), u),
            forall|u: int| 0 <= u < v ==> divergence(*graph, ints(run.result.flows@), u) == #[trigger] required_divergence@[u],
        decreases reached@.len() - v,
    {
        if reached[v] != required_divergence[v] {
            return Err(SuccessiveShortestPathTraceCheckError::BoundaryMismatch);
        }
        v = v + 1;
    }
    let ghost final_flows = replay.flows@;
    let mut j = run.events.len();
    while j > 0
        invariant
            j <= run.events@.len(),
            len == run.events@.len(),
            final_flows == run.result.flows@,
            final_flows == run.final_snapshot.flows@,
            replay_back(forward, run.events@, len) == replay_back(trace_view(replay), run.events@, j as int),
            len > 0 ==> shaped(*graph, replay),
            replay_through(trace_view(run.base_snapshot), run.events@, len) == Some(forward),
        decreases j,
    {
        j = j - 1;
        let ghost at = trace_view(replay);
        match apply_trace_event(graph, &mut replay, &run.events[j], FlowTraceDirection::Reverse) {
            Ok(()) => {},
            Err(e) => {
                proof {
                    assert(replay_back(at, run.events@, j + 1) is None);
                }
                return Err(SuccessiveShortestPathTraceCheckError::Trace(e));
            },
        }
    }
    if !snapshots_equal(&replay, &run.base_snapshot) {
        return Err(SuccessiveShortestPathTraceCheckError::BoundaryMismatch);
    }
    Ok(())
}

/// The traced boundaries of one run.
pub type TraceParts = (FlowTraceSnapshot, Vec<FlowTraceEvent>, FlowTraceSnapshot);

/// Shared trace counters for Bellman–Ford SSP.
pub fn ssp_trace_metrics(metrics: BellmanFordSspMetrics) -> (r: FlowTraceMetrics)
    ensures
        r.relaxation_passes == metrics.relaxation_passes,
        r.residual_arc_scans == metrics.residual_arc_scans,
        r.augmentations == metrics.augmentations,
{
    FlowTraceMetrics {
        bfs_runs: 0,
        relaxation_passes: metrics.relaxation_passes as u128,
        residual_arc_scans: metrics.residual_arc_scans,
        augmentations: metrics.augmentations as u128,
        path_searches: 0,
        scaling_phases: 0,
        blocking_flow_phases: 0,
        relabels: 0,
        retreats: 0,
        reverse_bfs_runs: 0,
        gap_terminations: 0,
        pushes: 0,
        saturating_pushes: 0,
        nonsaturating_pushes: 0,
        discharges: 0,
        active_vertex_selections: 0,
    }
}

/// Shared trace counters for potential + Dijkstra SSP.
pub fn dijkstra_trace_metrics(metrics: PotentialDijkstraSspMetrics) -> (r: FlowTraceMetrics)
    ensures
        r.residual_arc_scans == metrics.residual_arc_scans,
        r.augmentations == metrics.augmentations,
{
    FlowTraceMetrics {
        bfs_runs: 0,
        relaxation_passes: 0,
        residual_arc_scans: metrics.residual_arc_scans,
        augmentations: metrics.augmentations as u128,
        path_searches: metrics.dijkstra_runs as u128,
        scaling_phases: 0,
        blocking_flow_phases: 0,
        relabels: metrics.potential_updates as u128,
        retreats: 0,
        reverse_bfs_runs: 0,
        gap_terminations: 0,
        pushes: 0,
        saturating_pushes: 0,
        nonsaturating_pushes: 0,
        discharges: 0,
        active_vertex_selections: metrics.settled_nodes,
    }
}

/// One inspection or relaxation inside a Bellman–Ford search.
struct Checkpoint {
    metrics: BellmanFordSspMetrics,
    arc: Arc,
    relaxed: Option<usize>,
    distances: Vec<Option<i128>>,
    order: Vec<usize>,
}

/// The outcome of one Bellman–Ford search from a surplus node.
struct BellmanFordSearch {
    sink: Option<usize>,
    path: Option<Vec<Arc>>,
    distances: Vec<Option<i128>>,
    order: Vec<usize>,
    metrics_before: BellmanFordSspMetrics,
    checkpoints: Vec<Checkpoint>,
}

pub(crate) open spec fn arcs_ok(net: &ArcNet, p: Seq<Arc>) -> bool {
    forall|i: int| 0 <= i < p.len() ==> (#[trigger] p[i]).0 < net.m()
}

pub(crate) fn none_labels(n: usize) -> (r: Vec<Option<i128>>)
    ensures
        r@.len() == n,
        forall|i: int| 0 <= i < n ==> (#[trigger] r@[i]) is None,
{
    let mut d: Vec<Option<i128>> = Vec::new();
    let mut v: usize = 0;
    while v < n
        invariant
            v <= n,
            d@.len() == v,
            forall|i: int| 0 <= i < v ==> (#[trigger] d@[i]) is None,
        decreases n - v,
    {
        d.push(None);
        v = v + 1;
    }
    d
}

/// Follows predecessor arcs from `sink` back to `source`, at most `n` arcs.
pub(crate) fn follow_predecessors(net: &ArcNet, pred: &Vec<Option<Arc>>, source: usize, sink: usize) -> (r: Option<Vec<Arc>>)
    requires
        net.wf(),
        pred@.len() == net.n,
        forall|u: int| 0 <= u < net.n ==> ((#[trigger] pred@[u]) matches Some(a) ==> a.0 < net.m()),
        sink < net.n,
    ensures
        r matches Some(p) ==> arcs_ok(net, p@),
{
    let mut reversed: Vec<Arc> = Vec::new();
    let mut cursor = sink;
    while cursor != source
        invariant
            net.wf(),
            pred@.len() == net.n,
            forall|u: int| 0 <= u < net.n ==> ((#[trigger] pred@[u]) matches Some(a) ==> a.0 < net.m()),
            cursor < net.n,
            reversed@.len() <= net.n,
            arcs_ok(net, reversed@),
        decreases net.n - reversed@.len(),
    {
        let a = match pred[cursor] {
            Some(a) => a,
            None => return None,
        };
        if net.head_of(a) != cursor || reversed.len() >= net.n {
            return None;
        }
        reversed.push(a);
        cursor = net.tail_of(a);
    }
    let mut path: Vec<Arc> = Vec::new();
    let mut i = reversed.len();
    while i > 0
        invariant
            i <= reversed@.len(),
            arcs_ok(net, reversed@),
            arcs_ok(net, path@),
        decreases i,
    {
        i = i - 1;
        path.push(reversed[i]);
    }
    Some(path)
}

/// Bellman–Ford from `source` over positive residual arcs, then the cheapest
/// deficit (ties by node position) and its predecessor path.
fn shortest_path_to_deficit(
    net: &ArcNet,
    flows: &Vec<u64>,
    source: usize,
    remaining: &Vec<i128>,
    metrics: &mut BellmanFordSspMetrics,
    record: bool,
) -> (r: Result<BellmanFordSearch, BellmanFordSspError>)
    requires
        net.wf(),
        net.bounded(flows@),
        source < net.n,
        remaining@.len() == net.n,
    ensures
        r matches Ok(s) ==> s.distances@.len() == net.n && (s.path matches Some(p) ==> arcs_ok(net, p@))
            && (s.sink matches Some(t) ==> t < net.n),
        r is Err ==> r == Err::<BellmanFordSearch, BellmanFordSspError>(BellmanFordSspError::ArithmeticOverflow)
            || r == Err::<BellmanFordSearch, BellmanFordSspError>(BellmanFordSspError::PredecessorInvariant),
        final(metrics).augmentations == old(metrics).augmentations,
{
    let n = net.n;
    let metrics_before = *metrics;
    let mut distance = none_labels(n);
    let mut pred: Vec<Option<Arc>> = Vec::new();
    let mut v: usize = 0;
    while v < n
        invariant
            v <= n,
            pred@.len() == v,
            forall|u: int| 0 <= u < v ==> (#[trigger] pred@[u]) is None,
        decreases n - v,
    {
        pred.push(None);
        v = v + 1;
    }
    let mut order: Vec<usize> = Vec::new();
    order.push(source);
    let mut checkpoints: Vec<Checkpoint> = Vec::new();
    distance.set(source, Some(0));
    let mut pass: usize = 1;
    while pass < n
        invariant
            net.wf(),
            net.bounded(flows@),
            n == net.n,
            source < n,
            distance@.len() == n,
            pred@.len() == n,
            forall|u: int| 0 <= u < n ==> ((#[trigger] pred@[u]) matches Some(a) ==> a.0 < net.m()),
            metrics.augmentations == old(metrics).augmentations,
        decreases n - pass,
    {
        if metrics.relaxation_passes == u64::MAX {
            return Err(BellmanFordSspError::ArithmeticOverflow);
        }
        metrics.relaxation_passes = metrics.relaxation_passes + 1;
        let mut changed = false;
        let mut node: usize = 0;
        while node < n
            invariant
                net.wf(),
                net.bounded(flows@),
                n == net.n,
                node <= n,
                distance@.len() == n,
                pred@.len() == n,
                forall|u: int| 0 <= u < n ==> ((#[trigger] pred@[u]) matches Some(a) ==> a.0 < net.m()),
                metrics.augmentations == old(metrics).augmentations,
            decreases n - node,
        {
            let node_distance = match distance[node] {
                Some(d) => d,
                None => {
                    node = node + 1;
                    continue;
                },
            };
            let arcs = &net.adj[node];
            let mut i: usize = 0;
            while i < arcs.len()
                invariant
                    net.wf(),
                    net.bounded(flows@),
                    n == net.n,
                    node < n,
                    arcs == &net.adj@[node as int],
                    i <= arcs@.len(),
                    distance@.len() == n,
                    pred@.len() == n,
                    forall|u: int| 0 <= u < n ==> ((#[trigger] pred@[u]) matches Some(a) ==> a.0 < net.m()),
                    metrics.augmentations == old(metrics).augmentations,
                decreases arcs@.len() - i,
            {
                let a = arcs[i];
                i = i + 1;
                if net.residual(flows, a) == 0 {
                    continue;
                }
                if metrics.residual_arc_scans == u128::MAX {
                    return Err(BellmanFordSspError::ArithmeticOverflow);
                }
                metrics.residual_arc_scans = metrics.residual_arc_scans + 1;
                let candidate = match node_distance.checked_add(net.arc_cost(a)) {
                    Some(c) => c,
                    None => return Err(BellmanFordSspError::ArithmeticOverflow),
                };
                let to = net.head_of(a);
                let relaxes = match distance[to] {
                    Some(current) => candidate < current,
                    None => true,
                };
                if record {
                    checkpoints.push(Checkpoint { metrics: *metrics, arc: a, relaxed: None, distances: clone_labels(&distance), order: clone_usizes(&order) });
                }
                if relaxes {
                    distance.set(to, Some(candidate));
                    pred.set(to, Some(a));
                    order.push(to);
                    changed = true;
                    if record {
                        checkpoints.push(Checkpoint { metrics: *metrics, arc: a, relaxed: Some(to), distances: clone_labels(&distance), order: clone_usizes(&order) });
                    }
                }
            }
            node = node + 1;
        }
        if !changed {
            break;
        }
        pass = pass + 1;
    }
    let mut sink: Option<usize> = None;
    let mut best: i128 = 0;
    let mut u: usize = 0;
    while u < n
        invariant
            u <= n,
            n == net.n,
            remaining@.len() == n,
            distance@.len() == n,
            sink matches Some(t) ==> t < n,
        decreases n - u,
    {
        if remaining[u] < 0 {
            match distance[u] {
                Some(d) => {
                    if sink.is_none() || d < best {
                        sink = Some(u);
                        best = d;
                    }
                },
                None => {},
            }
        }
        u = u + 1;
    }
    let t = match sink {
        Some(t) => t,
        None => return Ok(BellmanFordSearch { sink: None, path: None, distances: distance, order, metrics_before, checkpoints }),
    };
    let path = match follow_predecessors(net, &pred, source, t) {
        Some(p) => p,
        None => return Err(BellmanFordSspError::PredecessorInvariant),
    };
    Ok(BellmanFordSearch { sink: Some(t), path: Some(path), distances: distance, order, metrics_before, checkpoints })
}

/// The amount an augmentation may carry: the bottleneck, capped by the
/// source's surplus and the sink's deficit.
pub(crate) fn amount_to_deficit(net: &ArcNet, flows: &Vec<u64>, path: &Vec<Arc>, source: usize, sink: usize, remaining: &Vec<i128>) -> (r: Option<u64>)
    requires
        net.wf(),
        net.bounded(flows@),
        arcs_ok(net, path@),
        source < remaining@.len(),
        sink < remaining@.len(),
    ensures
        r matches Some(a) ==> 0 < a && a <= remaining@[source as int] && a <= -remaining@[sink as int],
        r matches Some(a) ==> forall|i: int| 0 <= i < path@.len() ==> a <= room_of(net, flows@, #[trigger] path@[i]),
{
    let bottleneck = match net.bottleneck(flows, path) {
        Some(b) => b,
        None => return None,
    };
    let s = remaining[source];
    let t = remaining[sink];
    if s <= 0 || t >= 0 || t == i128::MIN {
        return None;
    }
    let deficit = -t;
    let mut amount = bottleneck as i128;
    if s < amount {
        amount = s;
    }
    if deficit < amount {
        amount = deficit;
    }
    if amount <= 0 {
        return None;
    }
    Some(amount as u64)
}

/// A bottleneck arc of a path: the first of least residual capacity.
fn bottleneck_focus(net: &ArcNet, flows: &Vec<u64>, path: &Vec<Arc>) -> (r: Vec<Arc>)
    requires
        net.wf(),
        net.bounded(flows@),
        arcs_ok(net, path@),
    ensures
        path@.len() == 0 ==> r@.len() == 0,
        path@.len() > 0 ==> exists|k: int| #![trigger path@[k]] 0 <= k < path@.len() && r@ == seq![path@[k]] && first_least_room(net, flows@, path@, k),
{
    let mut out: Vec<Arc> = Vec::new();
    if path.len() == 0 {
        return out;
    }
    let mut best = 0usize;
    let mut best_cap = net.residual(flows, path[0]);
    let mut i: usize = 1;
    while i < path.len()
        invariant
            net.wf(),
            net.bounded(flows@),
            arcs_ok(net, path@),
            1 <= i <= path@.len(),
            best < i,
            best_cap == room_of(net, flows@, path@[best as int]),
            forall|j: int| 0 <= j < i ==> best_cap <= room_of(net, flows@, #[trigger] path@[j]),
            forall|j: int| 0 <= j < best ==> best_cap < room_of(net, flows@, #[trigger] path@[j]),
        decreases path@.len() - i,
    {
        let c = net.residual(flows, path[i]);
        if c < best_cap {
            best = i;
            best_cap = c;
        }
        i = i + 1;
    }
    out.push(path[best]);
    proof {
        assert(out@ =~= seq![path@[best as int]]);
    }
    out
}

pub(crate) fn prefix_of(path: &Vec<Arc>, len: usize) -> (r: Vec<Arc>)
    requires
        len <= path@.len(),
    ensures
        r@ == path@.take(len as int),
{
    let mut out: Vec<Arc> = Vec::new();
    let mut i: usize = 0;
    while i < len
        invariant
            i <= len,
            len <= path@.len(),
            out@ == path@.take(i as int),
        decreases len - i,
    {
        out.push(path[i]);
        proof {
            assert(path@.take(i + 1) =~= path@.take(i as int).push(path@[i as int]));
        }
        i = i + 1;
    }
    out
}

pub(crate) fn last_of(path: &Vec<Arc>) -> (r: Vec<Arc>)
    ensures
        r@ == (if path@.len() == 0 { Seq::<Arc>::empty() } else { seq![path@.last()] }),
{
    let mut out: Vec<Arc> = Vec::new();
    if path.len() > 0 {
        out.push(path[path.len() - 1]);
    }
    out
}

/// Labels visible after the first `k` nodes of the search order were reached.
fn search_prefix_labels(distances: &Vec<Option<i128>>, order: &Vec<usize>, k: usize) -> (r: (Vec<Option<i128>>, Vec<usize>))
    ensures
        r.0@.len() == distances@.len(),
        r.1@ == order@.take(if k < order@.len() { k as int } else { order@.len() as int }),
        forall|u: int| 0 <= u < distances@.len() ==> #[trigger] r.0@[u] == (if r.1@.contains(u as usize) { distances@[u] } else { None }),
{
    let n = distances.len();
    let k = if k < order.len() { k } else { order.len() };
    let mut visible: Vec<bool> = Vec::new();
    let mut v: usize = 0;
    while v < n
        invariant
            v <= n,
            visible@.len() == v,
            forall|u: int| 0 <= u < v ==> !(#[trigger] visible@[u]),
        decreases n - v,
    {
        visible.push(false);
        v = v + 1;
    }
    let mut shown: Vec<usize> = Vec::new();
    let mut i: usize = 0;
    while i < k
        invariant
            i <= k,
            k <= order@.len(),
            visible@.len() == n,
            shown@ == order@.take(i as int),
            forall|u: int| 0 <= u < n ==> (#[trigger] visible@[u] <==> shown@.contains(u as usize)),
        decreases k - i,
    {
        let node = order[i];
        let ghost before = shown@;
        if node < n {
            visible.set(node, true);
        }
        shown.push(node);
        proof {
            assert(order@.take(i + 1) =~= order@.take(i as int).push(node));
            assert forall|u: int| 0 <= u < n implies (#[trigger] visible@[u] <==> shown@.contains(u as usize)) by {
                if shown@.contains(u as usize) && u as usize != node {
                    let w = choose|w: int| 0 <= w < shown@.len() && shown@[w] == u as usize;
                    assert(w < before.len());
                    assert(before[w] == u as usize);
                }
                if u as usize == node {
                    assert(shown@[shown@.len() - 1] == node);
                }
                if before.contains(u as usize) {
                    let w = choose|w: int| 0 <= w < before.len() && before[w] == u as usize;
                    assert(shown@[w] == u as usize);
                }
            }
        }
        i = i + 1;
    }
    let mut labels: Vec<Option<i128>> = Vec::new();
    let mut u: usize = 0;
    while u < n
        invariant
            u <= n,
            n == distances@.len(),
            visible@.len() == n,
            labels@.len() == u,
            forall|x: int| 0 <= x < n ==> (#[trigger] visible@[x] <==> shown@.contains(x as usize)),
            forall|x: int| 0 <= x < u ==> #[trigger] labels@[x] == (if shown@.contains(x as usize) { distances@[x] } else { None }),
        decreases n - u,
    {
        labels.push(if visible[u] { distances[u] } else { None });
        u = u + 1;
    }
    (labels, shown)
}

fn node_refs(g: &FlowNetwork, nodes: &Vec<usize>) -> (r: Result<Vec<FlowTraceEntityRef>, FlowTraceError>)
    ensures
        r is Ok <==> forall|i: int| 0 <= i < nodes@.len() ==> #[trigger] nodes@[i] < g.n(),
        r matches Ok(v) ==> v@.len() == nodes@.len()
            && forall|i: int| 0 <= i < nodes@.len() ==> names_node_at(*g, #[trigger] v@[i], nodes@[i] as int),
{
    let mut out: Vec<FlowTraceEntityRef> = Vec::new();
    let mut i: usize = 0;
    while i < nodes.len()
        invariant
            i <= nodes@.len(),
            out@.len() == i,
            forall|j: int| 0 <= j < i ==> #[trigger] nodes@[j] < g.n(),
            forall|j: int| 0 <= j < i ==> names_node_at(*g, #[trigger] out@[j], nodes@[j] as int),
        decreases nodes@.len() - i,
    {
        let x = match node_entity_ref(g, nodes[i]) {
            Ok(x) => x,
            Err(e) => return Err(e),
        };
        out.push(x);
        i = i + 1;
    }
    Ok(out)
}

fn terr(e: FlowTraceError) -> (r: BellmanFordSspError)
    ensures
        r == BellmanFordSspError::Trace(e),
{
    BellmanFordSspError::Trace(e)
}

/// What recording one search did when it succeeded: one event for the
/// source, one per checkpoint and one for the finished tree, ending at the
/// given flows, remaining divergence and counters.
spec fn search_recorded(
    before: FlowTraceRecorder,
    after: FlowTraceRecorder,
    r: Result<(), FlowTraceError>,
    steps: nat,
    flows: Seq<u64>,
    remaining: Seq<i128>,
    metrics: BellmanFordSspMetrics,
) -> bool {
    r is Ok ==> {
        &&& after.event_count() == before.event_count() + steps + 2
        &&& after.current_state().0 == flows
        &&& after.current_state().4 == remaining
        &&& after.current_state().5.relaxation_passes == metrics.relaxation_passes
        &&& after.current_state().5.residual_arc_scans == metrics.residual_arc_scans
        &&& after.current_state().5.augmentations == metrics.augmentations
    }
}

/// Records the source selection, every search checkpoint, and the finished
/// shortest-path tree of one search.
fn record_search(
    recorder: &mut Option<FlowTraceRecorder>,
    graph: &FlowNetwork,
    flows: &Vec<u64>,
    remaining: &Vec<i128>,
    metrics: BellmanFordSspMetrics,
    identity: SspTraceIdentity,
    source: usize,
    search: &BellmanFordSearch,
) -> (r: Result<(), FlowTraceError>)
    ensures
        (*old(recorder)) is None ==> r is Ok && (*final(recorder)) is None,
        (*old(recorder)) matches Some(before) ==> (*final(recorder)) matches Some(after)
            && search_recorded(before, after, r, search.checkpoints@.len(), flows@, remaining@, metrics),
{
    if recorder.is_none() {
        return Ok(());
    }
    let ghost start = recorder->0;
    let empty: Vec<Arc> = Vec::new();
    let (labels, shown) = search_prefix_labels(&search.distances, &search.order, 1);
    let mut focus: Vec<FlowTraceEntityRef> = Vec::new();
    if shown.len() > 0 {
        focus.push(node_entity_ref(graph, shown[0])?);
    }
    record_view(recorder, graph, flows, ssp_trace_metrics(search.metrics_before), meta(identity, "select-source", TraceGranularityV1::Phase),
        labels, &shown, &empty, copy_remaining(remaining), Some(("source", source as i128)), focus)?;
    let mut i: usize = 0;
    while i < search.checkpoints.len()
        invariant
            i <= search.checkpoints@.len(),
            (*recorder) matches Some(mid) && mid.event_count() == start.event_count() + 1 + i,
            *old(recorder) == Some(start),
        decreases search.checkpoints@.len() - i,
    {
        let c = &search.checkpoints[i];
        let mut one: Vec<Arc> = Vec::new();
        one.push(c.arc);
        let mut focus = residual_arc_refs(graph, &one)?;
        match c.relaxed {
            Some(relaxed) => {
                focus.push(node_entity_ref(graph, relaxed)?);
                record_view(recorder, graph, flows, ssp_trace_metrics(c.metrics), meta(identity, "relax", TraceGranularityV1::Micro),
                    clone_labels(&c.distances), &c.order, &one, copy_remaining(remaining), Some(("relaxed", relaxed as i128)), focus)?;
            },
            None => {
                let scans: i128 = if c.metrics.residual_arc_scans > i128::MAX as u128 { i128::MAX } else { c.metrics.residual_arc_scans as i128 };
                record_view(recorder, graph, flows, ssp_trace_metrics(c.metrics), meta(identity, "inspect-residual-arc", TraceGranularityV1::Micro),
                    clone_labels(&c.distances), &c.order, &one, copy_remaining(remaining), Some(("residual-arc scans", scans)), focus)?;
            },
        }
        i = i + 1;
    }
    let (labels, shown) = search_prefix_labels(&search.distances, &search.order, search.order.len());
    let focus = node_refs(graph, &shown)?;
    record_view(recorder, graph, flows, ssp_trace_metrics(metrics), meta(identity, "shortest-path", TraceGranularityV1::Phase),
        labels, &shown, &empty, copy_remaining(remaining), Some(("reachable", search.order.len() as i128)), focus)
}

pub(crate) fn copy_remaining(remaining: &Vec<i128>) -> (r: Vec<i128>)
    ensures
        r@ == remaining@,
{
    let mut r: Vec<i128> = Vec::new();
    let mut i: usize = 0;
    while i < remaining.len()
        invariant
            i <= remaining@.len(),
            r@ == remaining@.take(i as int),
        decreases remaining@.len() - i,
    {
        r.push(remaining[i]);
        proof {
            assert(remaining@.take(i + 1) =~= remaining@.take(i as int).push(remaining@[i as int]));
        }
        i = i + 1;
    }
    proof {
        assert(remaining@.take(i as int) =~= remaining@);
    }
    r
}

/// Flows at every lower bound.
/// Positive part of `x`.
pub open spec fn pos(x: int) -> int {
    if x > 0 { x } else { 0 }
}

/// Sum of the positive parts of the first `k` entries of `r`.
pub open spec fn surplus_sum(r: Seq<int>, k: int) -> int
    decreases k,
{
    if k <= 0 { 0 } else { surplus_sum(r, k - 1) + pos(r[k - 1]) }
}

/// What the all-lower-bound flow leaves to be sent: the total by which the
/// required divergences exceed its divergences.  Every augmentation of the
/// successive-shortest-path methods sends at least one unit of it.
pub open spec fn unmet_at_lower(g: FlowNetwork, required: Seq<i128>) -> int {
    surplus_sum(Seq::new(g.n(), |v: int| required[v] as int - divergence(g, lower_flow(g), v)), g.n() as int)
}

pub(crate) proof fn lemma_surplus_update(r: Seq<int>, i: int, x: int, k: int)
    requires
        0 <= i < r.len(),
        0 <= k <= r.len(),
    ensures
        surplus_sum(r.update(i, x), k) == surplus_sum(r, k) - (if i < k { pos(r[i]) - pos(x) } else { 0 }),
    decreases k,
{
    if k > 0 {
        lemma_surplus_update(r, i, x, k - 1);
    }
}

pub(crate) proof fn lemma_surplus_at_least(r: Seq<int>, i: int, k: int)
    requires
        0 <= k <= r.len(),
    ensures
        surplus_sum(r, k) >= 0,
        0 <= i < k ==> surplus_sum(r, k) >= pos(r[i]),
    decreases k,
{
    if k > 0 {
        lemma_surplus_at_least(r, i, k - 1);
    }
}

/// Sending `a` units from a node with surplus at least `a` to a node with
/// deficit at least `a` lowers the total surplus by exactly `a`.
pub(crate) proof fn lemma_surplus_send(rem: Seq<i128>, source: int, sink: int, a: int)
    requires
        0 <= source < rem.len(),
        0 <= sink < rem.len(),
        0 < a <= rem[source],
        a <= -rem[sink],
        i128::MIN <= rem[sink] + a,
    ensures
        surplus_sum(wide(rem.update(source, (rem[source] - a) as i128).update(sink, (rem[sink] + a) as i128)), rem.len() as int)
            == surplus_sum(wide(rem), rem.len() as int) - a,
{
    let r1 = rem.update(source, (rem[source] - a) as i128);
    let r2 = r1.update(sink, (rem[sink] + a) as i128);
    assert(wide(r1) =~= wide(rem).update(source, rem[source] - a));
    assert(wide(r2) =~= wide(r1).update(sink, rem[sink] + a));
    lemma_surplus_update(wide(rem), source, rem[source] - a, rem.len() as int);
    assert(source != sink);
    assert(wide(r1)[sink] == rem[sink]);
    lemma_surplus_update(wide(r1), sink, rem[sink] + a, rem.len() as int);
}

pub(crate) fn lower_flows(graph: &FlowNetwork) -> (r: Vec<u64>)
    ensures
        within_bounds(*graph, ints(r@)),
        ints(r@) == lower_flow(*graph),
{
    proof {
        use_type_invariant(graph);
    }
    let mut flows: Vec<u64> = Vec::new();
    let mut k: usize = 0;
    while k < graph.edges().len()
        invariant
            graph.wf(),
            k <= graph.m(),
            flows@.len() == k,
            forall|j: int| 0 <= j < k ==> #[trigger] flows@[j] == graph.edge_seq()[j].lower,
        decreases graph.m() - k,
    {
        flows.push(graph.edges()[k].lower);
        k = k + 1;
    }
    proof {
        assert forall|j: int| 0 <= j < graph.m() implies graph.edge_seq()[j].lower <= #[trigger] ints(flows@)[j] <= graph.edge_seq()[j].capacity by {
            assert(ints(flows@)[j] == flows@[j]);
        }
        assert(ints(flows@) =~= lower_flow(*graph));
    }
    flows
}

/// Required minus current divergence at every node.
pub(crate) fn remaining_after(graph: &FlowNetwork, required: &[i128], flows: &Vec<u64>) -> (r: Option<Vec<i128>>)
    requires
        required@.len() == graph.n(),
    ensures
        r matches Some(v) ==> v@.len() == graph.n()
            && forall|u: int| 0 <= u < graph.n() ==> #[trigger] v@[u] == required@[u] - divergence(*graph, ints(flows@), u),
        r is None <==> flows@.len() != graph.m() || exists|u: int| 0 <= u < graph.n()
            && !(i128::MIN <= required@[u] - #[trigger] divergence(*graph, ints(flows@), u) <= i128::MAX),
{
    let current = match divergences(graph, flows.as_slice()) {
        Ok(d) => d,
        Err(_) => return None,
    };
    let mut remaining: Vec<i128> = Vec::new();
    let mut v: usize = 0;
    while v < current.len()
        invariant
            v <= current@.len(),
            current@.len() == graph.n(),
            required@.len() == graph.n(),
            remaining@.len() == v,
            flows@.len() == graph.m(),
            forall|u: int| 0 <= u < graph.n() ==> #[trigger] current@[u] == divergence(*graph, ints(flows@), u),
            forall|u: int| 0 <= u < v ==> #[trigger] remaining@[u] == required@[u] - divergence(*graph, ints(flows@), u),
        decreases current@.len() - v,
    {
        match required[v].checked_sub(current[v]) {
            Some(x) => remaining.push(x),
            None => {
                proof {
                    assert(current@[v as int] == divergence(*graph, ints(flows@), v as int));
                }
                return None;
            },
        }
        v = v + 1;
    }
    proof {
        assert forall|u: int| 0 <= u < graph.n() implies i128::MIN <= required@[u] - #[trigger] divergence(*graph, ints(flows@), u) <= i128::MAX by {
            assert(remaining@[u] == required@[u] - divergence(*graph, ints(flows@), u));
        }
    }
    Some(remaining)
}

pub(crate) fn first_surplus(remaining: &Vec<i128>) -> (r: Option<usize>)
    ensures
        r matches Some(v) ==> v < remaining@.len() && remaining@[v as int] > 0,
        r is None ==> forall|v: int| 0 <= v < remaining@.len() ==> remaining@[v] <= 0,
{
    let mut v: usize = 0;
    while v < remaining.len()
        invariant
            v <= remaining@.len(),
            forall|u: int| 0 <= u < v ==> remaining@[u] <= 0,
        decreases remaining@.len() - v,
    {
        if remaining[v] > 0 {
            return Some(v);
        }
        v = v + 1;
    }
    None
}

pub(crate) fn all_zero(remaining: &Vec<i128>) -> (r: bool)
    ensures
        r == (forall|v: int| 0 <= v < remaining@.len() ==> remaining@[v] == 0),
{
    let mut v: usize = 0;
    while v < remaining.len()
        invariant
            v <= remaining@.len(),
            forall|u: int| 0 <= u < v ==> remaining@[u] == 0,
        decreases remaining@.len() - v,
    {
        if remaining[v] != 0 {
            return false;
        }
        v = v + 1;
    }
    true
}

fn ssp_internal(
    graph: &FlowNetwork,
    required: &[i128],
    record_trace: bool,
    identity: SspTraceIdentity,
    feasibility: &mut FeasibilityExecution,
) -> (r: Result<(BellmanFordSspResult, Option<TraceParts>), BellmanFordSspError>)
    ensures
        r matches Err(e) ==> (e is AdmissionLimit ==> *final(feasibility) == *old(feasibility)),
        r matches Ok(run) ==> certified_min_cost(*graph, required@, run.0.flows@, run.0.certificate),
        r matches Ok(run) ==> run.0.metrics.augmentations <= BELLMAN_FORD_SSP_MAX_AUGMENTATIONS,
        r matches Ok(run) ==> run.0.metrics.augmentations <= unmet_at_lower(*graph, required@),
        unmet_at_lower(*graph, required@) <= BELLMAN_FORD_SSP_MAX_AUGMENTATIONS
            ==> r != Err::<(BellmanFordSspResult, Option<TraceParts>), BellmanFordSspError>(BellmanFordSspError::AugmentationLimit),
        r matches Ok(run) ==> (run.1 matches Some(t) ==> replayable(t)),
        r == Err::<(BellmanFordSspResult, Option<TraceParts>), BellmanFordSspError>(BellmanFordSspError::AdmissionLimit) <==> ssp_over_admission(*graph),
        r == Err::<(BellmanFordSspResult, Option<TraceParts>), BellmanFordSspError>(BellmanFordSspError::Feasibility(FeasibilityError::LengthMismatch))
            <==> !ssp_over_admission(*graph) && required@.len() != graph.n(),
        r == Err::<(BellmanFordSspResult, Option<TraceParts>), BellmanFordSspError>(BellmanFordSspError::Feasibility(FeasibilityError::Infeasible))
            ==> forall|f: Seq<int>| !#[trigger] feasible_flow(*graph, f, wide(required@)),
{
    proof {
        use_type_invariant(graph);
    }
    let n = graph.nodes().len();
    if n > BELLMAN_FORD_SSP_MAX_NODES || graph.edges().len() > BELLMAN_FORD_SSP_MAX_EDGES {
        return Err(BellmanFordSspError::AdmissionLimit);
    }
    match feasibility.find_feasible_flow(graph, required, FeasibilityUse::PrecheckOnly) {
        Ok(_) => {},
        Err(e) => return Err(BellmanFordSspError::Feasibility(e)),
    }
    let mut flows = lower_flows(graph);
    match residual_potentials(graph, flows.as_slice()) {
        Ok(_) => {},
        Err(e) => return Err(BellmanFordSspError::Certificate(e)),
    }
    let mut remaining = match remaining_after(graph, required, &flows) {
        Some(r) => r,
        None => return Err(BellmanFordSspError::ArithmeticOverflow),
    };
    proof {
        assert(wide(remaining@) =~= Seq::new(graph.n(), |v: int| required@[v] as int - divergence(*graph, lower_flow(*graph), v)));
    }
    let net = ArcNet::from_network(graph);
    proof {
        assert forall|k: int| 0 <= k < net.m() implies net.lower@[k] <= #[trigger] flows@[k] <= net.cap@[k] by {
            assert(ints(flows@)[k] == flows@[k]);
        }
    }
    let mut metrics = BellmanFordSspMetrics { augmentations: 0, relaxation_passes: 0, residual_arc_scans: 0 };
    let mut recorder: Option<FlowTraceRecorder> = None;
    let empty_order: Vec<usize> = Vec::new();
    let empty: Vec<Arc> = Vec::new();
    if record_trace {
        let snapshot = match FlowTraceSnapshot::capture(graph, &flows, none_labels(n), &empty_order, &empty, copy_remaining(&remaining), ssp_trace_metrics(metrics)) {
            Ok(s) => s,
            Err(e) => return Err(terr(e)),
        };
        recorder = match FlowTraceRecorder::new(graph, snapshot) {
            Ok(rec) => Some(rec),
            Err(e) => return Err(terr(e)),
        };
    }
    loop
        invariant
            net.wf(),
            net.bounded(flows@),
            net.n == n,
            n == graph.n(),
            remaining@.len() == n,
            required@.len() == n,
            !ssp_over_admission(*graph),
            metrics.augmentations <= BELLMAN_FORD_SSP_MAX_AUGMENTATIONS,
            metrics.augmentations + surplus_sum(wide(remaining@), n as int) <= unmet_at_lower(*graph, required@),
            empty@.len() == 0,
        decreases BELLMAN_FORD_SSP_MAX_AUGMENTATIONS - metrics.augmentations,
    {
        let source = match first_surplus(&remaining) {
            Some(v) => v,
            None => break,
        };
        proof {
            lemma_surplus_at_least(wide(remaining@), source as int, n as int);
        }
        if metrics.augmentations >= BELLMAN_FORD_SSP_MAX_AUGMENTATIONS {
            return Err(BellmanFordSspError::AugmentationLimit);
        }
        let search = shortest_path_to_deficit(&net, &flows, source, &remaining, &mut metrics, record_trace)?;
        match record_search(&mut recorder, graph, &flows, &remaining, metrics, identity, source, &search) {
            Ok(()) => {},
            Err(e) => return Err(terr(e)),
        }
        let sink = match search.sink {
            Some(t) => t,
            None => return Err(BellmanFordSspError::MissingPath),
        };
        let path = match search.path {
            Some(p) => p,
            None => return Err(BellmanFordSspError::MissingPath),
        };
        let mut len: usize = 0;
        while len < path.len()
            invariant
                len <= path@.len(),
                !ssp_over_admission(*graph),
                required@.len() == graph.n(),
            decreases path@.len() - len,
        {
            len = len + 1;
            let shown = prefix_of(&path, len);
            let last = last_of(&shown);
            let focus = match residual_arc_refs(graph, &last) {
                Ok(f) => f,
                Err(e) => return Err(terr(e)),
            };
            match record_view(&mut recorder, graph, &flows, ssp_trace_metrics(metrics), meta(identity, "reconstruct-path", TraceGranularityV1::Micro),
                clone_labels(&search.distances), &search.order, &shown, copy_remaining(&remaining), Some(("path-edges", len as i128)), focus) {
                Ok(()) => {},
                Err(e) => return Err(terr(e)),
            }
        }
        let amount = match amount_to_deficit(&net, &flows, &path, source, sink, &remaining) {
            Some(a) => a,
            None => return Err(BellmanFordSspError::MissingPath),
        };
        let bottleneck = bottleneck_focus(&net, &flows, &path);
        let focus = match residual_arc_refs(graph, &bottleneck) {
            Ok(f) => f,
            Err(e) => return Err(terr(e)),
        };
        match record_view(&mut recorder, graph, &flows, ssp_trace_metrics(metrics), meta(identity, "bottleneck", TraceGranularityV1::Micro),
            clone_labels(&search.distances), &search.order, &path, copy_remaining(&remaining), Some(("bottleneck", amount as i128)), focus) {
            Ok(()) => {},
            Err(e) => return Err(terr(e)),
        }
        match net.augment(&mut flows, &path, amount) {
            Ok(()) => {},
            Err(_) => return Err(BellmanFordSspError::PredecessorInvariant),
        }
        proof {
            lemma_surplus_send(remaining@, source as int, sink as int, amount as int);
        }
        remaining.set(source, remaining[source] - amount as i128);
        remaining.set(sink, remaining[sink] + amount as i128);
        metrics.augmentations = metrics.augmentations + 1;
        let focus = match residual_arc_refs(graph, &path) {
            Ok(f) => f,
            Err(e) => return Err(terr(e)),
        };
        match record_view(&mut recorder, graph, &flows, ssp_trace_metrics(metrics), meta(identity, "augment", TraceGranularityV1::Operation),
            clone_labels(&search.distances), &search.order, &path, copy_remaining(&remaining), Some(("amount", amount as i128)), focus) {
            Ok(()) => {},
            Err(e) => return Err(terr(e)),
        }
    }
    proof {
        lemma_surplus_at_least(wide(remaining@), 0, n as int);
    }
    if !all_zero(&remaining) {
        return Err(BellmanFordSspError::MissingPath);
    }
    let certificate = match check_min_cost_flow(graph, required, flows.as_slice()) {
        Ok(c) => c,
        Err(e) => return Err(BellmanFordSspError::Certificate(e)),
    };
    match record_view(&mut recorder, graph, &flows, ssp_trace_metrics(metrics), meta(identity, "optimal", TraceGranularityV1::Phase),
        none_labels(n), &empty_order, &empty, copy_remaining(&remaining), None, Vec::new()) {
        Ok(()) => {},
        Err(e) => return Err(terr(e)),
    }
    let trace = match recorder {
        Some(rec) => Some(rec.finish()),
        None => None,
    };
    Ok((BellmanFordSspResult { flows, certificate, metrics }, trace))
}

} // verus!
