//! Feasible flows under lower bounds, found through an auxiliary
//! super-source/super-sink maximum flow and then checked exactly.
use vstd::prelude::*;

use crate::augmenting::{max_flow, shortest_path, ArcNet, ScanStep};
use crate::certificate::{check_bounds, divergences, wide};
use crate::flows::{
    conserves_except, cut_capacity, cut_prefix, cut_term, divergence, feasible_flow, feasible_st_flow, flow_value, indicator,
    ints, lemma_cut_bounds_edges, lemma_exchange_sums, weighted_div, weighted_edges, within_bounds,
};
use crate::model::{FlowNetwork, NodeIndex};

verus! {

/// Augmentation ceiling of the auxiliary maximum flow.
pub const FEASIBILITY_MAX_AUGMENTATIONS: u64 = 10_000_000;
/// Residual-arc scan ceiling of the auxiliary maximum flow.
pub const FEASIBILITY_MAX_SCANS: u128 = 1_000_000_000;

/// Why no feasible flow was produced.
#[derive(Clone, Copy, Debug, PartialEq, Eq)]
pub enum FeasibilityError {
    /// A terminal is out of range, or source and sink coincide.
    InvalidTerminal,
    /// The required divergences do not match the node count.
    LengthMismatch,
    /// No flow meets the bounds and divergences.
    Infeasible,
    /// An excess did not fit a single edge capacity.
    ArithmeticOverflow,
    /// The auxiliary search exhausted its deterministic work ceiling.
    WorkLimit,
    /// The auxiliary search ended with neither a feasible flow nor a
    /// refutation of feasibility.
    SearchInvariant,
}

/// What the caller will do with the feasible flow.
#[derive(Clone, Copy, Debug, PartialEq, Eq)]
pub enum FeasibilityUse {
    /// The flow becomes the algorithm's starting point.
    InitialFlow,
    /// Only the verdict matters; the flow is discarded.
    PrecheckOnly,
}

/// The enclosing execution's record of auxiliary feasibility work.
#[derive(Clone, Copy, Debug, PartialEq, Eq)]
pub struct FeasibilityExecution {
    /// Whether runs are recorded.
    pub recording: bool,
    /// Recorded runs that produced a starting flow.
    pub initial_flows: u64,
    /// Recorded runs whose flow was discarded.
    pub prechecks: u64,
}

impl FeasibilityExecution {
    /// The record after one more run for `usage`: when recording, that use's
    /// counter goes up by one unless it is saturated.
    pub open spec fn after_run(self, usage: FeasibilityUse) -> FeasibilityExecution {
        if !self.recording {
            self
        } else {
            match usage {
                FeasibilityUse::InitialFlow => FeasibilityExecution {
                    initial_flows: if self.initial_flows < u64::MAX { (self.initial_flows + 1) as u64 } else { self.initial_flows },
                    ..self
                },
                FeasibilityUse::PrecheckOnly => FeasibilityExecution {
                    prechecks: if self.prechecks < u64::MAX { (self.prechecks + 1) as u64 } else { self.prechecks },
                    ..self
                },
            }
        }
    }

    /// An execution that records nothing.
    pub fn untracked() -> (r: FeasibilityExecution)
        ensures
            !r.recording,
            r.initial_flows == 0,
            r.prechecks == 0,
    {
        FeasibilityExecution { recording: false, initial_flows: 0, prechecks: 0 }
    }

    /// An execution that counts every auxiliary run.
    pub fn counted() -> (r: FeasibilityExecution)
        ensures
            r.recording,
            r.initial_flows == 0,
            r.prechecks == 0,
    {
        FeasibilityExecution { recording: true, initial_flows: 0, prechecks: 0 }
    }

    fn record(&mut self, usage: FeasibilityUse)
        ensures
            *final(self) == old(self).after_run(usage),
    {
        if self.recording {
            match usage {
                FeasibilityUse::InitialFlow => {
                    if self.initial_flows < u64::MAX {
                        self.initial_flows = self.initial_flows + 1;
                    }
                },
                FeasibilityUse::PrecheckOnly => {
                    if self.prechecks < u64::MAX {
                        self.prechecks = self.prechecks + 1;
                    }
                },
            }
        }
    }

    /// A flow from `source` to `sink` within all bounds that conserves at
    /// every other node.
    pub fn find_max_flow_initial(&mut self, g: &FlowNetwork, source: NodeIndex, sink: NodeIndex, usage: FeasibilityUse) -> (r: Result<Vec<u64>, FeasibilityError>)
        ensures
            r matches Ok(f) ==> feasible_st_flow(*g, ints(f@), source@ as int, sink@ as int),
            r == Err::<Vec<u64>, FeasibilityError>(FeasibilityError::InvalidTerminal) <==> !(source@ < g.n() && sink@ < g.n() && source@ != sink@),
            r == Err::<Vec<u64>, FeasibilityError>(FeasibilityError::Infeasible) ==> forall|f: Seq<int>|
                #[trigger] feasible_st_flow(*g, f, source@ as int, sink@ as int) ==> flow_value(*g, f, source@ as int) < 0,
            final(self).recording == old(self).recording,
            *final(self) == old(self).after_run(usage),
    {
        self.record(usage);
        find_st_flow(g, source, sink)
    }

    /// A flow within all bounds whose divergence is `required` at every node.
    pub fn find_feasible_flow(&mut self, g: &FlowNetwork, required: &[i128], usage: FeasibilityUse) -> (r: Result<Vec<u64>, FeasibilityError>)
        ensures
            r matches Ok(f) ==> feasible_flow(*g, ints(f@), wide(required@)),
            r == Err::<Vec<u64>, FeasibilityError>(FeasibilityError::LengthMismatch) <==> required@.len() != g.n(),
            r == Err::<Vec<u64>, FeasibilityError>(FeasibilityError::Infeasible) ==> forall|f: Seq<int>| !#[trigger] feasible_flow(*g, f, wide(required@)),
            final(self).recording == old(self).recording,
            *final(self) == old(self).after_run(usage),
    {
        self.record(usage);
        find_divergence_flow(g, required)
    }
}

/// Whether the flow is a feasible flow from `s` to `t`.
pub fn is_feasible_st(g: &FlowNetwork, flows: &Vec<u64>, s: usize, t: usize) -> (r: bool)
    requires
        s < g.n(),
        t < g.n(),
        s != t,
    ensures
        r == feasible_st_flow(*g, ints(flows@), s as int, t as int),
{
    if flows.len() != g.edges().len() || !check_bounds(g, flows.as_slice()) {
        return false;
    }
    let d = match divergences(g, flows.as_slice()) {
        Ok(d) => d,
        Err(_) => return false,
    };
    let n = g.nodes().len();
    let mut v: usize = 0;
    while v < n
        invariant
            v <= n,
            n == g.n(),
            d@.len() == n,
            forall|u: int| 0 <= u < n ==> #[trigger] d@[u] == divergence(*g, ints(flows@), u),
            forall|u: int| 0 <= u < v && u != s && u != t ==> #[trigger] divergence(*g, ints(flows@), u) == 0,
        decreases n - v,
    {
        if v != s && v != t && d[v] != 0 {
            return false;
        }
        v = v + 1;
    }
    true
}

/// Whether the flow meets every bound and the required divergences.
pub fn is_feasible_for(g: &FlowNetwork, flows: &Vec<u64>, required: &[i128]) -> (r: bool)
    ensures
        r == feasible_flow(*g, ints(flows@), wide(required@)),
{
    if flows.len() != g.edges().len() || required.len() != g.nodes().len() || !check_bounds(g, flows.as_slice()) {
        return false;
    }
    let d = match divergences(g, flows.as_slice()) {
        Ok(d) => d,
        Err(_) => return false,
    };
    let n = g.nodes().len();
    let mut v: usize = 0;
    while v < n
        invariant
            v <= n,
            n == g.n(),
            d@.len() == n,
            required@.len() == n,
            forall|u: int| 0 <= u < n ==> #[trigger] d@[u] == divergence(*g, ints(flows@), u),
            forall|u: int| 0 <= u < v ==> #[trigger] divergence(*g, ints(flows@), u) == wide(required@)[u],
        decreases n - v,
    {
        if d[v] != required[v] {
            return false;
        }
        v = v + 1;
    }
    true
}

/// Sum over nodes `v < n` of `w[v] * x[v]`.
pub open spec fn weighted_sum(x: Seq<int>, w: Seq<int>, n: int) -> int
    decreases n,
{
    if n <= 0 {
        0
    } else {
        weighted_sum(x, w, n - 1) + w[n - 1] * x[n - 1]
    }
}

/// Weight one on each of `n` nodes.
pub open spec fn ones(n: nat) -> Seq<int> {
    Seq::new(n, |v: int| 1int)
}

/// A witness that no flow meets the bounds of `g` with divergences
/// `required`: either the required divergences do not sum to zero, or the
/// nodes of `side` must send out more than the edges leaving them can carry
/// beyond what the lower bounds of the edges entering them bring back.
pub open spec fn refutes_feasibility(g: FlowNetwork, required: Seq<int>, side: Seq<bool>) -> bool {
    &&& required.len() == g.n()
    &&& side.len() == g.n()
    &&& (weighted_sum(required, ones(g.n()), g.n() as int) != 0
        || weighted_sum(required, indicator(side), g.n() as int) > cut_capacity(g, side))
}

proof fn lemma_required_sum(g: FlowNetwork, f: Seq<int>, required: Seq<int>, w: Seq<int>, n: int)
    requires
        feasible_flow(g, f, required),
        0 <= n <= g.n(),
    ensures
        weighted_sum(required, w, n) == weighted_div(g.edge_seq(), f, w, g.m() as int, n),
    decreases n,
{
    if n > 0 {
        lemma_required_sum(g, f, required, w, n - 1);
        assert(divergence(g, f, n - 1) == required[n - 1]);
    }
}

proof fn lemma_unit_weights_cancel(g: FlowNetwork, f: Seq<int>, k: int)
    requires
        g.wf(),
        0 <= k <= g.m(),
    ensures
        weighted_edges(g.edge_seq(), f, ones(g.n()), k) == 0,
    decreases k,
{
    if k > 0 {
        lemma_unit_weights_cancel(g, f, k - 1);
        let e = g.edge_seq()[k - 1];
        assert(e.from@ < g.n() && e.to@ < g.n());
        assert(ones(g.n())[e.from@ as int] == 1 && ones(g.n())[e.to@ as int] == 1);
    }
}

/// A refutation rules out every feasible flow.
pub proof fn lemma_refutation_sound(g: FlowNetwork, required: Seq<int>, side: Seq<bool>)
    requires
        g.wf(),
        refutes_feasibility(g, required, side),
    ensures
        forall|f: Seq<int>| !#[trigger] feasible_flow(g, f, required),
{
    let edges = g.edge_seq();
    let m = g.m() as int;
    let n = g.n() as int;
    assert forall|f: Seq<int>| !#[trigger] feasible_flow(g, f, required) by {
        if feasible_flow(g, f, required) {
            assert forall|i: int| 0 <= i < m implies (#[trigger] edges[i]).from@ < n && edges[i].to@ < n by {}
            lemma_exchange_sums(edges, f, ones(g.n()), m, n);
            lemma_exchange_sums(edges, f, indicator(side), m, n);
            lemma_required_sum(g, f, required, ones(g.n()), n);
            lemma_required_sum(g, f, required, indicator(side), n);
            lemma_unit_weights_cancel(g, f, m);
            lemma_cut_bounds_edges(g, f, side, m);
        }
    }
}

/// A witness that no bounded flow from `s` to `t` of nonnegative value
/// conserves at the other nodes: a node set that holds the sink only together
/// with the source, and whose edges leaving it cannot carry out the lower
/// bounds of the edges entering it.
pub open spec fn refutes_st_flow(g: FlowNetwork, s: int, t: int, side: Seq<bool>) -> bool {
    &&& side.len() == g.n()
    &&& 0 <= s < g.n()
    &&& 0 <= t < g.n()
    &&& (side[t] ==> side[s])
    &&& cut_capacity(g, side) < 0
}

proof fn lemma_st_side_sum(g: FlowNetwork, f: Seq<int>, side: Seq<bool>, w: Seq<int>, s: int, t: int, n: int)
    requires
        conserves_except(g, f, s, t),
        side.len() == g.n(),
        w == indicator(side),
        0 <= n <= g.n(),
    ensures
        weighted_div(g.edge_seq(), f, w, g.m() as int, n)
            == (if 0 <= s < n && side[s] { divergence(g, f, s) } else { 0 })
            + (if 0 <= t < n && side[t] && t != s { divergence(g, f, t) } else { 0 }),
    decreases n,
{
    if n > 0 {
        lemma_st_side_sum(g, f, side, w, s, t, n - 1);
        let v = n - 1;
        if v != s && v != t {
            assert(divergence(g, f, v) == 0);
        }
        if side[v] {
            assert(w[v] == 1);
        } else {
            assert(w[v] == 0);
        }
    }
}

proof fn lemma_st_total(g: FlowNetwork, f: Seq<int>, s: int, t: int, n: int)
    requires
        conserves_except(g, f, s, t),
        0 <= n <= g.n(),
    ensures
        weighted_div(g.edge_seq(), f, ones(g.n()), g.m() as int, n)
            == (if 0 <= s < n { divergence(g, f, s) } else { 0 }) + (if 0 <= t < n && t != s { divergence(g, f, t) } else { 0 }),
    decreases n,
{
    if n > 0 {
        lemma_st_total(g, f, s, t, n - 1);
        let v = n - 1;
        if v != s && v != t {
            assert(divergence(g, f, v) == 0);
        }
        assert(ones(g.n())[v] == 1);
    }
}

/// Such a node set rules out every conserving bounded flow from `s` to `t`
/// of nonnegative value.
pub proof fn lemma_st_refutation_sound(g: FlowNetwork, s: int, t: int, side: Seq<bool>)
    requires
        g.wf(),
        refutes_st_flow(g, s, t, side),
    ensures
        forall|f: Seq<int>| #[trigger] feasible_st_flow(g, f, s, t) ==> flow_value(g, f, s) < 0,
{
    let edges = g.edge_seq();
    let m = g.m() as int;
    let n = g.n() as int;
    assert forall|f: Seq<int>| #[trigger] feasible_st_flow(g, f, s, t) implies flow_value(g, f, s) < 0 by {
        assert forall|i: int| 0 <= i < m implies (#[trigger] edges[i]).from@ < n && edges[i].to@ < n by {}
        lemma_exchange_sums(edges, f, ones(g.n()), m, n);
        lemma_exchange_sums(edges, f, indicator(side), m, n);
        lemma_unit_weights_cancel(g, f, m);
        lemma_st_total(g, f, s, t, n);
        lemma_st_side_sum(g, f, side, indicator(side), s, t, n);
        lemma_cut_bounds_edges(g, f, side, m);
    }
}

/// Checks whether `side` refutes an s–t flow of nonnegative value.
fn refutes_st(g: &FlowNetwork, s: usize, t: usize, side: &Vec<bool>) -> (r: Result<bool, FeasibilityError>)
    requires
        s < g.n(),
        t < g.n(),
        side@.len() == g.n(),
    ensures
        r matches Ok(b) ==> (b == refutes_st_flow(*g, s as int, t as int, side@)),
        r is Err ==> r == Err::<bool, FeasibilityError>(FeasibilityError::ArithmeticOverflow),
{
    if side[t] && !side[s] {
        return Ok(false);
    }
    let cut = match cut_of(g, side) {
        Some(c) => c,
        None => return Err(FeasibilityError::ArithmeticOverflow),
    };
    Ok(cut < 0)
}

/// Capacity of the cut `side`, unless it leaves `i128`.
fn cut_of(g: &FlowNetwork, side: &Vec<bool>) -> (r: Option<i128>)
    requires
        side@.len() == g.n(),
    ensures
        r matches Some(c) ==> c == cut_capacity(*g, side@),
{
    proof {
        use_type_invariant(g);
    }
    let n = g.nodes().len();
    let m = g.edges().len();
    let mut cut: i128 = 0;
    let mut k: usize = 0;
    while k < m
        invariant
            g.wf(),
            n == g.n(),
            m == g.m(),
            side@.len() == n,
            k <= m,
            cut == cut_prefix(g.edge_seq(), side@, k as int),
        decreases m - k,
    {
        let e = &g.edges()[k];
        proof {
            assert(g.edge_seq()[k as int] == *e);
            assert(e.from@ < n && e.to@ < n);
        }
        let from = e.from.as_usize();
        let to = e.to.as_usize();
        let term: i128 = if side[from] && !side[to] {
            e.capacity as i128
        } else if !side[from] && side[to] {
            -(e.lower as i128)
        } else {
            0
        };
        proof {
            assert(term == cut_term(g.edge_seq()[k as int], side@));
        }
        cut = match cut.checked_add(term) {
            Some(x) => x,
            None => return None,
        };
        k = k + 1;
    }
    Some(cut)
}

/// Checks whether `side` refutes feasibility; fails only when a sum leaves
/// `i128`.
fn refutes(g: &FlowNetwork, required: &[i128], side: &Vec<bool>) -> (r: Result<bool, FeasibilityError>)
    requires
        required@.len() == g.n(),
        side@.len() == g.n(),
    ensures
        r matches Ok(b) ==> (b == refutes_feasibility(*g, wide(required@), side@)),
        r is Err ==> r == Err::<bool, FeasibilityError>(FeasibilityError::ArithmeticOverflow),
{
    proof {
        use_type_invariant(g);
    }
    let n = g.nodes().len();
    let m = g.edges().len();
    let ghost req = wide(required@);
    let mut total: i128 = 0;
    let mut inside: i128 = 0;
    let mut v: usize = 0;
    while v < n
        invariant
            n == g.n(),
            required@.len() == n,
            side@.len() == n,
            req == wide(required@),
            v <= n,
            total == weighted_sum(req, ones(g.n()), v as int),
            inside == weighted_sum(req, indicator(side@), v as int),
        decreases n - v,
    {
        proof {
            assert(req[v as int] == required@[v as int]);
            assert(ones(g.n())[v as int] == 1);
            assert(indicator(side@)[v as int] == if side@[v as int] { 1int } else { 0int });
        }
        total = match total.checked_add(required[v]) {
            Some(x) => x,
            None => return Err(FeasibilityError::ArithmeticOverflow),
        };
        if side[v] {
            inside = match inside.checked_add(required[v]) {
                Some(x) => x,
                None => return Err(FeasibilityError::ArithmeticOverflow),
            };
        }
        v = v + 1;
    }
    let cut = match cut_of(g, side) {
        Some(c) => c,
        None => return Err(FeasibilityError::ArithmeticOverflow),
    };
    Ok(total != 0 || inside > cut)
}

/// The nodes of `g` reachable from the super-source `n` of the auxiliary
/// network through arcs with room.
fn reachable_side(net: &ArcNet, aux: &Vec<u64>, n: usize) -> (r: Result<Vec<bool>, FeasibilityError>)
    requires
        net.wf(),
        net.bounded(aux@),
        net.n == n + 2,
    ensures
        r matches Ok(side) ==> side@.len() == n,
        r is Err ==> r == Err::<Vec<bool>, FeasibilityError>(FeasibilityError::WorkLimit),
{
    let mut scans: u128 = 0;
    let mut none: Option<Vec<ScanStep>> = None;
    let search = match shortest_path(net, aux, n, n + 1, &mut scans, FEASIBILITY_MAX_SCANS, &mut none) {
        Ok(found) => found,
        Err(_) => return Err(FeasibilityError::WorkLimit),
    };
    let mut side: Vec<bool> = Vec::new();
    let mut v: usize = 0;
    while v < n
        invariant
            v <= n,
            side@.len() == v,
            search.distances@.len() == n + 2,
        decreases n - v,
    {
        side.push(search.distances[v].is_some());
        v = v + 1;
    }
    Ok(side)
}

/// Every edge at its lower bound.
pub open spec fn lower_flow(g: FlowNetwork) -> Seq<int> {
    Seq::new(g.m(), |k: int| g.edge_seq()[k].lower as int)
}

/// Divergence of every node under the lower bounds alone.
fn lower_divergences(g: &FlowNetwork) -> (r: Vec<i128>)
    ensures
        r@.len() == g.n(),
        forall|v: int| 0 <= v < g.n() ==> #[trigger] r@[v] == divergence(*g, lower_flow(*g), v),
{
    let mut lowers: Vec<u64> = Vec::new();
    let mut k: usize = 0;
    while k < g.edges().len()
        invariant
            k <= g.m(),
            lowers@.len() == k,
            forall|j: int| 0 <= j < k ==> #[trigger] lowers@[j] == g.edge_seq()[j].lower,
        decreases g.m() - k,
    {
        lowers.push(g.edges()[k].lower);
        k = k + 1;
    }
    proof {
        assert(ints(lowers@) =~= lower_flow(*g));
    }
    match divergences(g, lowers.as_slice()) {
        Ok(d) => d,
        Err(_) => {
            let mut z: Vec<i128> = Vec::new();
            let mut v: usize = 0;
            while v < g.nodes().len()
                invariant
                    v <= g.n(),
                    z@.len() == v,
                decreases g.n() - v,
            {
                z.push(0);
                v = v + 1;
            }
            z
        },
    }
}

/// Builds the auxiliary network: every edge shifted by its lower bound, plus a
/// super-source feeding each node whose `need` is positive and a super-sink
/// draining each node whose `need` is negative.
fn auxiliary(g: &FlowNetwork, need: &Vec<i128>) -> (r: Result<ArcNet, FeasibilityError>)
    requires
        need@.len() == g.n(),
    ensures
        r matches Ok(net) ==> net.wf() && net.n == g.n() + 2 && net.m() >= g.m(),
        r is Err ==> r == Err::<ArcNet, FeasibilityError>(FeasibilityError::ArithmeticOverflow),
{
    proof {
        use_type_invariant(g);
    }
    let n = g.nodes().len();
    let m = g.edges().len();
    if n > usize::MAX - 2 {
        return Err(FeasibilityError::ArithmeticOverflow);
    }
    let mut net = ArcNet::empty(n + 2);
    let mut k: usize = 0;
    while k < m
        invariant
            g.wf(),
            n == g.n(),
            m == g.m(),
            net.wf(),
            net.n == n + 2,
            net.m() == k,
            k <= m,
        decreases m - k,
    {
        let e = &g.edges()[k];
        net.add_edge(e.from.as_usize(), e.to.as_usize(), 0, e.capacity - e.lower, 0);
        k = k + 1;
    }
    let mut v: usize = 0;
    while v < n
        invariant
            n == g.n(),
            need@.len() == n,
            net.wf(),
            net.n == n + 2,
            net.m() >= m,
            v <= n,
        decreases n - v,
    {
        let x = need[v];
        if x > 0 {
            if x > u64::MAX as i128 {
                return Err(FeasibilityError::ArithmeticOverflow);
            }
            net.add_edge(n, v, 0, x as u64, 0);
        } else if x < 0 {
            if x < -(u64::MAX as i128) {
                return Err(FeasibilityError::ArithmeticOverflow);
            }
            net.add_edge(v, n + 1, 0, (-x) as u64, 0);
        }
        v = v + 1;
    }
    Ok(net)
}

/// Runs the auxiliary maximum flow and lifts its edge flows back onto `g`.
fn lift(g: &FlowNetwork, net: &ArcNet, s: usize, t: usize) -> (r: Result<(Vec<u64>, Vec<u64>), FeasibilityError>)
    requires
        net.wf(),
        s < net.n,
        t < net.n,
        net.m() >= g.m(),
    ensures
        r matches Ok(f) ==> f.0@.len() == g.m() && net.bounded(f.1@),
        r is Err ==> r == Err::<(Vec<u64>, Vec<u64>), FeasibilityError>(FeasibilityError::WorkLimit)
            || r == Err::<(Vec<u64>, Vec<u64>), FeasibilityError>(FeasibilityError::ArithmeticOverflow),
{
    let mut aux: Vec<u64> = Vec::new();
    let mut k: usize = 0;
    while k < net.tail.len()
        invariant
            net.wf(),
            k <= net.m(),
            aux@.len() == k,
            forall|j: int| 0 <= j < k ==> #[trigger] aux@[j] == net.lower@[j],
        decreases net.m() - k,
    {
        aux.push(net.lower[k]);
        k = k + 1;
    }
    let mut scans: u128 = 0;
    match max_flow(net, &mut aux, s, t, FEASIBILITY_MAX_AUGMENTATIONS, FEASIBILITY_MAX_SCANS, &mut scans) {
        Ok(_) => {},
        Err(_) => return Err(FeasibilityError::WorkLimit),
    }
    let mut flows: Vec<u64> = Vec::new();
    let mut k: usize = 0;
    while k < g.edges().len()
        invariant
            k <= g.m(),
            g.m() <= net.m(),
            aux@.len() == net.m(),
            flows@.len() == k,
        decreases g.m() - k,
    {
        let e = &g.edges()[k];
        if aux[k] > u64::MAX - e.lower {
            return Err(FeasibilityError::ArithmeticOverflow);
        }
        flows.push(e.lower + aux[k]);
        k = k + 1;
    }
    Ok((flows, aux))
}

fn find_st_flow(g: &FlowNetwork, source: NodeIndex, sink: NodeIndex) -> (r: Result<Vec<u64>, FeasibilityError>)
    ensures
        r matches Ok(f) ==> feasible_st_flow(*g, ints(f@), source@ as int, sink@ as int),
        r == Err::<Vec<u64>, FeasibilityError>(FeasibilityError::InvalidTerminal) <==> !(source@ < g.n() && sink@ < g.n() && source@ != sink@),
        r == Err::<Vec<u64>, FeasibilityError>(FeasibilityError::Infeasible) ==> forall|f: Seq<int>|
            #[trigger] feasible_st_flow(*g, f, source@ as int, sink@ as int) ==> flow_value(*g, f, source@ as int) < 0,
{
    proof {
        use_type_invariant(g);
    }
    let n = g.nodes().len();
    let s = source.as_usize();
    let t = sink.as_usize();
    if s >= n || t >= n || s == t {
        return Err(FeasibilityError::InvalidTerminal);
    }
    let low = lower_divergences(g);
    let mut need: Vec<i128> = Vec::new();
    let mut v: usize = 0;
    while v < n
        invariant
            v <= n,
            n == g.n(),
            low@.len() == n,
            need@.len() == v,
            s == source@,
            t == sink@,
            s < n,
            t < n,
            s != t,
        decreases n - v,
    {
        match 0i128.checked_sub(low[v]) {
            Some(x) => need.push(x),
            None => return Err(FeasibilityError::ArithmeticOverflow),
        }
        v = v + 1;
    }
    let mut net = match auxiliary(g, &need) {
        Ok(net) => net,
        Err(e) => return Err(e),
    };
    net.add_edge(t, s, 0, u64::MAX, 0);
    let (flows, aux) = match lift(g, &net, n, n + 1) {
        Ok(f) => f,
        Err(e) => return Err(e),
    };
    if !is_feasible_st(g, &flows, s, t) {
        let side = match reachable_side(&net, &aux, n) {
            Ok(side) => side,
            Err(e) => return Err(e),
        };
        return match refutes_st(g, s, t, &side) {
            Ok(true) => {
                proof {
                    lemma_st_refutation_sound(*g, s as int, t as int, side@);
                }
                Err(FeasibilityError::Infeasible)
            },
            Ok(false) => Err(FeasibilityError::SearchInvariant),
            Err(e) => Err(e),
        };
    }
    Ok(flows)
}

fn find_divergence_flow(g: &FlowNetwork, required: &[i128]) -> (r: Result<Vec<u64>, FeasibilityError>)
    ensures
        r matches Ok(f) ==> feasible_flow(*g, ints(f@), wide(required@)),
        r == Err::<Vec<u64>, FeasibilityError>(FeasibilityError::LengthMismatch) <==> required@.len() != g.n(),
        r == Err::<Vec<u64>, FeasibilityError>(FeasibilityError::Infeasible) ==> forall|f: Seq<int>| !#[trigger] feasible_flow(*g, f, wide(required@)),
{
    proof {
        use_type_invariant(g);
    }
    let n = g.nodes().len();
    if required.len() != n {
        return Err(FeasibilityError::LengthMismatch);
    }
    let low = lower_divergences(g);
    let mut need: Vec<i128> = Vec::new();
    let mut v: usize = 0;
    while v < n
        invariant
            v <= n,
            n == g.n(),
            low@.len() == n,
            required@.len() == n,
            need@.len() == v,
        decreases n - v,
    {
        match required[v].checked_sub(low[v]) {
            Some(x) => need.push(x),
            None => return Err(FeasibilityError::ArithmeticOverflow),
        }
        v = v + 1;
    }
    let net = match auxiliary(g, &need) {
        Ok(net) => net,
        Err(e) => return Err(e),
    };
    let (flows, aux) = match lift(g, &net, n, n + 1) {
        Ok(f) => f,
        Err(e) => return Err(e),
    };
    if !is_feasible_for(g, &flows, required) {
        let side = match reachable_side(&net, &aux, n) {
            Ok(side) => side,
            Err(e) => return Err(e),
        };
        return match refutes(g, required, &side) {
            Ok(true) => {
                proof {
                    lemma_refutation_sound(*g, wide(required@), side@);
                }
                Err(FeasibilityError::Infeasible)
            },
            Ok(false) => Err(FeasibilityError::SearchInvariant),
            Err(e) => Err(e),
        };
    }
    Ok(flows)
}

} // verus!
