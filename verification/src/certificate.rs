//! Solver-independent certificates of feasibility and optimality.
use vstd::prelude::*;

use crate::flows::{
    conserves_except, contribution, cut_capacity, cut_prefix, cut_term, div_prefix, divergence,
    feasible_flow, feasible_st_flow, flow_cost, flow_value, cost_prefix, ints, is_maximum_flow,
    is_min_cost_flow, is_st_cut, lemma_cut_certifies_maximum, lemma_saturated_cut_value,
    lemma_slackness_certifies_min_cost, reduced_cost, slackness, within_bounds,
};
use crate::augmenting::distinct_edges;
use crate::mean_certificate::{find_negative_cycle, lemma_negative_cycle_improves, residual_cycle, walk_cost};
use crate::model::{FlowNetwork, NodeIndex};
use crate::residual::{forced, residual_closure, residually_closed};

verus! {

/// Two to the sixty-fourth: a bound on any single flow.
pub const FLOW_SPAN: i128 = 18_446_744_073_709_551_616;

/// Why a flow was not certified.
#[derive(Clone, Copy, Debug, PartialEq, Eq)]
pub enum CertificateError {
    /// A flow or divergence vector does not match the network's size.
    LengthMismatch,
    /// A terminal is out of range, or source and sink coincide.
    InvalidTerminal,
    /// Some edge carries flow outside its bounds.
    BoundViolation,
    /// Some node's divergence differs from what was required.
    ConservationViolation,
    /// The sink is still reachable along positive residual arcs.
    AugmentingPathRemains,
    /// The residual graph holds a cycle of negative cost.
    NegativeCycle,
    /// Exact arithmetic left its integer domain.
    ArithmeticOverflow,
    /// Supplies do not sum to zero.
    Unbalanced,
    /// Relaxation kept improving, yet no residual cycle of negative cost
    /// could be traced.
    CycleInvariant,
}

/// A maximum flow's value together with the minimum cut that bounds it.
#[derive(Clone, Debug, PartialEq, Eq)]
pub struct MaxFlowCertificate {
    /// Net outflow of the source.
    pub value: i128,
    /// Capacity of `source_side`: upper bounds leaving minus lower bounds entering.
    pub cut_bound: i128,
    /// Nodes reachable from the source along positive residual arcs.
    pub source_side: Vec<bool>,
}

/// A minimum-cost flow's objective with node potentials proving optimality.
#[derive(Clone, Debug, PartialEq, Eq)]
pub struct MinCostFlowCertificate {
    /// Total cost of the flow.
    pub total_cost: i128,
    /// Node potentials satisfying complementary slackness with the flow.
    pub potentials: Vec<i128>,
}

/// What a certified minimum-cost result guarantees.
pub open spec fn certified_min_cost(g: FlowNetwork, required: Seq<i128>, flows: Seq<u64>, c: MinCostFlowCertificate) -> bool {
    &&& is_min_cost_flow(g, ints(flows), wide(required))
    &&& c.total_cost == flow_cost(g, ints(flows))
    &&& slackness(g, ints(flows), wide(c.potentials@))
}

/// Potentials that no positive residual arc can shorten.
pub open spec fn potentials_feasible(g: FlowNetwork, f: Seq<int>, p: Seq<int>) -> bool {
    &&& p.len() == g.n()
    &&& forall|k: int|
        0 <= k < g.m() ==> {
            let e = #[trigger] g.edge_seq()[k];
            &&& f[k] < e.capacity ==> p[e.to@ as int] <= p[e.from@ as int] + e.cost
            &&& f[k] > e.lower ==> p[e.from@ as int] <= p[e.to@ as int] - e.cost
        }
}

/// Integer view of a vector of `i128`.
pub open spec fn wide(v: Seq<i128>) -> Seq<int> {
    Seq::new(v.len(), |i: int| v[i] as int)
}

proof fn lemma_div_step(g: FlowNetwork, f: Seq<int>, v: int, k: int)
    requires
        0 <= k < g.m(),
    ensures
        div_prefix(g.edge_seq(), f, v, k + 1) == div_prefix(g.edge_seq(), f, v, k) + contribution(g.edge_seq()[k], f[k], v),
{
}

/// Divergence (outflow minus inflow) of every node under `flows`.
pub fn divergences(g: &FlowNetwork, flows: &[u64]) -> (r: Result<Vec<i128>, CertificateError>)
    ensures
        r matches Ok(d) ==> d@.len() == g.n() && forall|v: int| 0 <= v < g.n() ==> #[trigger] d@[v] == divergence(*g, ints(flows@), v),
        r is Err <==> flows@.len() != g.m(),
        r is Err ==> r == Err::<Vec<i128>, CertificateError>(CertificateError::LengthMismatch),
{
    proof {
        use_type_invariant(g);
    }
    let n = g.nodes().len();
    let m = g.edges().len();
    if flows.len() != m {
        return Err(CertificateError::LengthMismatch);
    }
    let mut d: Vec<i128> = Vec::new();
    let mut v: usize = 0;
    while v < n
        invariant
            v <= n,
            n == g.n(),
            d@.len() == v,
            forall|u: int| 0 <= u < v ==> #[trigger] d@[u] == 0,
        decreases n - v,
    {
        d.push(0);
        v = v + 1;
    }
    let ghost f = ints(flows@);
    let mut k: usize = 0;
    while k < m
        invariant
            g.wf(),
            n == g.n(),
            m == g.m(),
            flows@.len() == m,
            f == ints(flows@),
            k <= m,
            d@.len() == n,
            forall|u: int| 0 <= u < n ==> #[trigger] d@[u] == div_prefix(g.edge_seq(), f, u, k as int),
            forall|u: int| 0 <= u < n ==> -(k as int) * FLOW_SPAN <= #[trigger] d@[u] <= (k as int) * FLOW_SPAN,
        decreases m - k,
    {
        let from = g.edges()[k].from.as_usize();
        let to = g.edges()[k].to.as_usize();
        let x = flows[k] as i128;
        assert(f[k as int] == x);
        let ghost before = d@;
        let a = d[from] + x;
        d.set(from, a);
        let b = d[to] - x;
        d.set(to, b);
        proof {
            assert forall|u: int| 0 <= u < n implies #[trigger] d@[u] == div_prefix(g.edge_seq(), f, u, k + 1) && -((k + 1) as int) * FLOW_SPAN <= d@[u] <= ((k + 1) as int) * FLOW_SPAN by {
                lemma_div_step(*g, f, u, k as int);
                assert(before[u] == div_prefix(g.edge_seq(), f, u, k as int));
            }
        }
        k = k + 1;
    }
    Ok(d)
}

/// Certifies a maximum flow from `source` to `sink`: checks bounds and
/// conservation, then exhibits the residual-reachable cut whose capacity the
/// flow's value attains.
pub fn check_max_flow(g: &FlowNetwork, source: NodeIndex, sink: NodeIndex, flows: &[u64]) -> (r: Result<MaxFlowCertificate, CertificateError>)
    ensures
        r matches Ok(c) ==> {
            &&& is_maximum_flow(*g, ints(flows@), source@ as int, sink@ as int)
            &&& c.value == flow_value(*g, ints(flows@), source@ as int)
            &&& is_st_cut(*g, c.source_side@, source@ as int, sink@ as int)
            &&& c.cut_bound == cut_capacity(*g, c.source_side@)
            &&& c.value == c.cut_bound
            &&& c.source_side@.len() == g.n()
            &&& forall|v: int| 0 <= v < g.n() ==> (#[trigger] c.source_side@[v] <==> forced(*g, ints(flows@), source@ as int, v))
        },
        r == Err::<MaxFlowCertificate, CertificateError>(CertificateError::LengthMismatch) <==> flows@.len() != g.m(),
        r == Err::<MaxFlowCertificate, CertificateError>(CertificateError::InvalidTerminal) <==> flows@.len() == g.m() && !(source@ < g.n() && sink@ < g.n() && source@ != sink@),
        r == Err::<MaxFlowCertificate, CertificateError>(CertificateError::BoundViolation) <==> flows@.len() == g.m() && source@ < g.n() && sink@ < g.n() && source@ != sink@ && !within_bounds(*g, ints(flows@)),
        r == Err::<MaxFlowCertificate, CertificateError>(CertificateError::ConservationViolation) <==> within_bounds(*g, ints(flows@)) && source@ < g.n() && sink@ < g.n() && source@ != sink@ && !conserves_except(*g, ints(flows@), source@ as int, sink@ as int),
        r == Err::<MaxFlowCertificate, CertificateError>(CertificateError::AugmentingPathRemains)
            <==> feasible_st_flow(*g, ints(flows@), source@ as int, sink@ as int) && forced(*g, ints(flows@), source@ as int, sink@ as int),
        r is Ok || r == Err::<MaxFlowCertificate, CertificateError>(CertificateError::LengthMismatch)
            || r == Err::<MaxFlowCertificate, CertificateError>(CertificateError::InvalidTerminal)
            || r == Err::<MaxFlowCertificate, CertificateError>(CertificateError::BoundViolation)
            || r == Err::<MaxFlowCertificate, CertificateError>(CertificateError::ConservationViolation)
            || r == Err::<MaxFlowCertificate, CertificateError>(CertificateError::AugmentingPathRemains),
{
    proof {
        use_type_invariant(g);
    }
    let n = g.nodes().len();
    let m = g.edges().len();
    if flows.len() != m {
        return Err(CertificateError::LengthMismatch);
    }
    let s = source.as_usize();
    let t = sink.as_usize();
    if s >= n || t >= n || s == t {
        return Err(CertificateError::InvalidTerminal);
    }
    if !check_bounds(g, flows) {
        return Err(CertificateError::BoundViolation);
    }
    let d = match divergences(g, flows) {
        Ok(d) => d,
        Err(e) => return Err(e),
    };
    let ghost f = ints(flows@);
    let mut v: usize = 0;
    while v < n
        invariant
            v <= n,
            n == g.n(),
            d@.len() == n,
            s < n,
            t < n,
            forall|u: int| 0 <= u < n ==> #[trigger] d@[u] == divergence(*g, f, u),
            forall|u: int| 0 <= u < v && u != s && u != t ==> #[trigger] divergence(*g, f, u) == 0,
            flows@.len() == g.m(),
            s == source@,
            t == sink@,
            s != t,
            f == ints(flows@),
            within_bounds(*g, f),
        decreases n - v,
    {
        if v != s && v != t && d[v] != 0 {
            return Err(CertificateError::ConservationViolation);
        }
        v = v + 1;
    }
    let flows_vec = copy_flows(flows);
    let side = residual_closure(g, &flows_vec, s);
    if side[t] {
        return Err(CertificateError::AugmentingPathRemains);
    }
    let cut_bound = cut_value(g, &side);
    proof {
        assert(!forced(*g, ints(flows@), source@ as int, sink@ as int)) by {
            assert(residually_closed(*g, ints(flows@), side@) && side@[s as int]);
        }
        assert forall|k: int| 0 <= k < g.m() implies {
            let e = #[trigger] g.edge_seq()[k];
            &&& (side@[e.from@ as int] && !side@[e.to@ as int]) ==> f[k] == e.capacity
            &&& (!side@[e.from@ as int] && side@[e.to@ as int]) ==> f[k] == e.lower
        } by {
            let e = g.edge_seq()[k];
            assert(e.lower <= f[k] <= e.capacity);
        }
        lemma_saturated_cut_value(*g, f, side@, s as int, t as int);
        lemma_cut_certifies_maximum(*g, f, side@, s as int, t as int);
    }
    Ok(MaxFlowCertificate { value: d[s], cut_bound, source_side: side })
}

pub(crate) fn copy_flows(flows: &[u64]) -> (r: Vec<u64>)
    ensures
        r@ == flows@,
{
    let mut r: Vec<u64> = Vec::new();
    let mut i: usize = 0;
    while i < flows.len()
        invariant
            i <= flows@.len(),
            r@ == flows@.take(i as int),
        decreases flows@.len() - i,
    {
        r.push(flows[i]);
        proof {
            assert(flows@.take(i + 1) =~= flows@.take(i as int).push(flows@[i as int]));
        }
        i = i + 1;
    }
    proof {
        assert(flows@.take(i as int) =~= flows@);
    }
    r
}

/// Whether every edge's flow lies within its bounds.
pub fn check_bounds(g: &FlowNetwork, flows: &[u64]) -> (r: bool)
    requires
        flows@.len() == g.m(),
    ensures
        r == within_bounds(*g, ints(flows@)),
{
    let m = g.edges().len();
    let mut k: usize = 0;
    while k < m
        invariant
            k <= m,
            m == g.m(),
            flows@.len() == m,
            forall|j: int| 0 <= j < k ==> g.edge_seq()[j].lower <= #[trigger] ints(flows@)[j] <= g.edge_seq()[j].capacity,
        decreases m - k,
    {
        let e = &g.edges()[k];
        if flows[k] < e.lower || flows[k] > e.capacity {
            assert(ints(flows@)[k as int] == flows@[k as int]);
            return false;
        }
        k = k + 1;
    }
    true
}

/// Capacity of a cut, computed exactly.
pub fn cut_value(g: &FlowNetwork, side: &Vec<bool>) -> (r: i128)
    requires
        side@.len() == g.n(),
    ensures
        r == cut_capacity(*g, side@),
{
    proof {
        use_type_invariant(g);
    }
    let m = g.edges().len();
    let mut total: i128 = 0;
    let mut k: usize = 0;
    while k < m
        invariant
            g.wf(),
            k <= m,
            m == g.m(),
            side@.len() == g.n(),
            total == cut_prefix(g.edge_seq(), side@, k as int),
            -(k as int) * FLOW_SPAN <= total <= (k as int) * FLOW_SPAN,
        decreases m - k,
    {
        let e = &g.edges()[k];
        let a = side[e.from.as_usize()];
        let b = side[e.to.as_usize()];
        if a && !b {
            total = total + e.capacity as i128;
        } else if !a && b {
            total = total - e.lower as i128;
        }
        proof {
            assert(cut_term(g.edge_seq()[k as int], side@) == total - cut_prefix(g.edge_seq(), side@, k as int));
        }
        k = k + 1;
    }
    total
}

/// Feasible potentials for the residual graph of a bounded flow, found by
/// Bellman–Ford from a virtual root joined to every node at cost zero.
///
/// Fails with `NegativeCycle` when relaxation has not settled after `n + 1`
/// full passes.
pub fn residual_potentials(g: &FlowNetwork, flows: &[u64]) -> (r: Result<Vec<i128>, CertificateError>)
    requires
        within_bounds(*g, ints(flows@)),
    ensures
        r matches Ok(p) ==> potentials_feasible(*g, ints(flows@), wide(p@)),
        r is Err ==> r == Err::<Vec<i128>, CertificateError>(CertificateError::NegativeCycle)
            || r == Err::<Vec<i128>, CertificateError>(CertificateError::ArithmeticOverflow)
            || r == Err::<Vec<i128>, CertificateError>(CertificateError::CycleInvariant),
        r == Err::<Vec<i128>, CertificateError>(CertificateError::NegativeCycle) ==> exists|c: Seq<(usize, bool)>|
            #[trigger] residual_cycle(*g, flows@, c) && distinct_edges(c) && walk_cost(*g, c, c.len() as int) < 0,
{
    proof {
        use_type_invariant(g);
    }
    let n = g.nodes().len();
    let m = g.edges().len();
    let mut p: Vec<i128> = Vec::new();
    let mut v: usize = 0;
    while v < n
        invariant
            v <= n,
            n == g.n(),
            p@.len() == v,
        decreases n - v,
    {
        p.push(0);
        v = v + 1;
    }
    let ghost f = ints(flows@);
    let mut round: u64 = 0;
    while round <= n as u64
        invariant
            g.wf(),
            n == g.n(),
            m == g.m(),
            p@.len() == n,
            f == ints(flows@),
            within_bounds(*g, f),
            n <= 4_294_967_295,
            round <= n + 1,
        decreases n + 1 - round,
    {
        let ghost start = p@;
        let mut changed = false;
        let mut k: usize = 0;
        while k < m
            invariant
                g.wf(),
                n == g.n(),
                m == g.m(),
                k <= m,
                p@.len() == n,
                f == ints(flows@),
                within_bounds(*g, f),
                !changed ==> p@ == start,
                !changed ==> forall|j: int|
                    0 <= j < k ==> {
                        let e = #[trigger] g.edge_seq()[j];
                        &&& f[j] < e.capacity ==> p@[e.to@ as int] <= p@[e.from@ as int] + e.cost
                        &&& f[j] > e.lower ==> p@[e.from@ as int] <= p@[e.to@ as int] - e.cost
                    },
            decreases m - k,
        {
            let e = &g.edges()[k];
            let from = e.from.as_usize();
            let to = e.to.as_usize();
            let c = e.cost as i128;
            assert(f[k as int] == flows@[k as int]);
            if flows[k] < e.capacity {
                match p[from].checked_add(c) {
                    Some(cand) => {
                        if cand < p[to] {
                            p.set(to, cand);
                            changed = true;
                        }
                    },
                    None => return Err(CertificateError::ArithmeticOverflow),
                }
            }
            if flows[k] > e.lower {
                match p[to].checked_sub(c) {
                    Some(cand) => {
                        if cand < p[from] {
                            p.set(from, cand);
                            changed = true;
                        }
                    },
                    None => return Err(CertificateError::ArithmeticOverflow),
                }
            }
            k = k + 1;
        }
        if !changed {
            proof {
                assert forall|k: int| 0 <= k < g.m() implies {
                    let e = #[trigger] g.edge_seq()[k];
                    &&& f[k] < e.capacity ==> wide(p@)[e.to@ as int] <= wide(p@)[e.from@ as int] + e.cost
                    &&& f[k] > e.lower ==> wide(p@)[e.from@ as int] <= wide(p@)[e.to@ as int] - e.cost
                } by {
                    let e = g.edge_seq()[k];
                    assert(e.from@ < n && e.to@ < n);
                }
            }
            return Ok(p);
        }
        round = round + 1;
    }
    match find_negative_cycle(g, flows) {
        Some(_) => Err(CertificateError::NegativeCycle),
        None => Err(CertificateError::CycleInvariant),
    }
}

/// Certifies a minimum-cost flow with the required divergences: checks bounds
/// and divergences, then derives potentials in complementary slackness with
/// the flow.
pub fn check_min_cost_flow(g: &FlowNetwork, required: &[i128], flows: &[u64]) -> (r: Result<MinCostFlowCertificate, CertificateError>)
    ensures
        r matches Ok(c) ==> {
            &&& is_min_cost_flow(*g, ints(flows@), wide(required@))
            &&& c.total_cost == flow_cost(*g, ints(flows@))
            &&& slackness(*g, ints(flows@), wide(c.potentials@))
        },
        r == Err::<MinCostFlowCertificate, CertificateError>(CertificateError::LengthMismatch) <==> flows@.len() != g.m() || required@.len() != g.n(),
        r == Err::<MinCostFlowCertificate, CertificateError>(CertificateError::BoundViolation) <==> flows@.len() == g.m() && required@.len() == g.n() && !within_bounds(*g, ints(flows@)),
        r == Err::<MinCostFlowCertificate, CertificateError>(CertificateError::ConservationViolation) <==> within_bounds(*g, ints(flows@)) && required@.len() == g.n() && !feasible_flow(*g, ints(flows@), wide(required@)),
        r == Err::<MinCostFlowCertificate, CertificateError>(CertificateError::NegativeCycle) ==> feasible_flow(*g, ints(flows@), wide(required@))
            && !is_min_cost_flow(*g, ints(flows@), wide(required@)),
        r == Err::<MinCostFlowCertificate, CertificateError>(CertificateError::CycleInvariant) ==> feasible_flow(*g, ints(flows@), wide(required@)),
        r == Err::<MinCostFlowCertificate, CertificateError>(CertificateError::ArithmeticOverflow) ==> feasible_flow(*g, ints(flows@), wide(required@)),
        r is Ok || r == Err::<MinCostFlowCertificate, CertificateError>(CertificateError::LengthMismatch)
            || r == Err::<MinCostFlowCertificate, CertificateError>(CertificateError::BoundViolation)
            || r == Err::<MinCostFlowCertificate, CertificateError>(CertificateError::ConservationViolation)
            || r == Err::<MinCostFlowCertificate, CertificateError>(CertificateError::NegativeCycle)
            || r == Err::<MinCostFlowCertificate, CertificateError>(CertificateError::ArithmeticOverflow)
            || r == Err::<MinCostFlowCertificate, CertificateError>(CertificateError::CycleInvariant),
{
    proof {
        use_type_invariant(g);
    }
    let n = g.nodes().len();
    let m = g.edges().len();
    if flows.len() != m || required.len() != n {
        return Err(CertificateError::LengthMismatch);
    }
    if !check_bounds(g, flows) {
        return Err(CertificateError::BoundViolation);
    }
    let d = match divergences(g, flows) {
        Ok(d) => d,
        Err(e) => return Err(e),
    };
    let ghost f = ints(flows@);
    let ghost req = wide(required@);
    let mut v: usize = 0;
    while v < n
        invariant
            v <= n,
            n == g.n(),
            d@.len() == n,
            required@.len() == n,
            req == wide(required@),
            forall|u: int| 0 <= u < n ==> #[trigger] d@[u] == divergence(*g, f, u),
            forall|u: int| 0 <= u < v ==> #[trigger] divergence(*g, f, u) == req[u],
            flows@.len() == g.m(),
            f == ints(flows@),
            within_bounds(*g, f),
        decreases n - v,
    {
        if d[v] != required[v] {
            return Err(CertificateError::ConservationViolation);
        }
        v = v + 1;
    }
    let p = match residual_potentials(g, flows) {
        Ok(p) => p,
        Err(e) => {
            proof {
                if e == CertificateError::NegativeCycle {
                    let c = choose|c: Seq<(usize, bool)>|
                        #[trigger] residual_cycle(*g, flows@, c) && distinct_edges(c) && walk_cost(*g, c, c.len() as int) < 0;
                    lemma_negative_cycle_improves(*g, flows@, req, c);
                }
            }
            return Err(e);
        },
    };
    let total_cost = match exact_cost(g, flows) {
        Some(c) => c,
        None => return Err(CertificateError::ArithmeticOverflow),
    };
    proof {
        let w = wide(p@);
        assert forall|k: int| 0 <= k < g.m() implies {
            let e = #[trigger] g.edge_seq()[k];
            &&& reduced_cost(e, w) > 0 ==> f[k] == e.lower
            &&& reduced_cost(e, w) < 0 ==> f[k] == e.capacity
        } by {
            let e = g.edge_seq()[k];
            assert(e.lower <= f[k] <= e.capacity);
        }
        lemma_slackness_certifies_min_cost(*g, f, req, w);
    }
    Ok(MinCostFlowCertificate { total_cost, potentials: p })
}

/// Exact total cost, or `None` when it leaves the `i128` domain.
pub fn exact_cost(g: &FlowNetwork, flows: &[u64]) -> (r: Option<i128>)
    requires
        flows@.len() == g.m(),
    ensures
        r matches Some(c) ==> c == flow_cost(*g, ints(flows@)),
{
    let m = g.edges().len();
    let mut total: i128 = 0;
    let mut k: usize = 0;
    while k < m
        invariant
            k <= m,
            m == g.m(),
            flows@.len() == m,
            total == cost_prefix(g.edge_seq(), ints(flows@), k as int),
        decreases m - k,
    {
        let c = g.edges()[k].cost as i128;
        let x = flows[k] as i128;
        assert(ints(flows@)[k as int] == x);
        let term = match c.checked_mul(x) {
            Some(t) => t,
            None => return None,
        };
        total = match total.checked_add(term) {
            Some(t) => t,
            None => return None,
        };
        k = k + 1;
    }
    Some(total)
}

/// Sum of supplies over the first `k` nodes.
pub open spec fn supply_prefix(g: FlowNetwork, k: int) -> int
    decreases k,
{
    if k <= 0 {
        0
    } else {
        supply_prefix(g, k - 1) + g.node_seq()[k - 1].supply
    }
}

/// Divergences demanded by node supplies alone; fails unless they sum to zero.
pub fn supply_divergences(g: &FlowNetwork) -> (r: Result<Vec<i128>, CertificateError>)
    ensures
        r matches Ok(d) ==> d@.len() == g.n() && forall|v: int| 0 <= v < g.n() ==> #[trigger] d@[v] == g.node_seq()[v].supply,
        r is Err <==> supply_prefix(*g, g.n() as int) != 0,
        r is Err ==> r == Err::<Vec<i128>, CertificateError>(CertificateError::Unbalanced),
{
    proof {
        use_type_invariant(g);
    }
    let n = g.nodes().len();
    let mut d: Vec<i128> = Vec::new();
    let mut total: i128 = 0;
    let mut v: usize = 0;
    while v < n
        invariant
            v <= n,
            n == g.n(),
            n <= 4_294_967_295,
            d@.len() == v,
            forall|u: int| 0 <= u < v ==> #[trigger] d@[u] == g.node_seq()[u].supply,
            total == supply_prefix(*g, v as int),
            -(v as int) * 9_223_372_036_854_775_808 <= total <= (v as int) * 9_223_372_036_854_775_808,
        decreases n - v,
    {
        let s = g.nodes()[v].supply as i128;
        d.push(s);
        total = total + s;
        v = v + 1;
    }
    if total != 0 {
        return Err(CertificateError::Unbalanced);
    }
    Ok(d)
}

/// Divergences demanded by node supplies plus `value` units sent from
/// `source` to `sink`.
pub fn fixed_flow_divergences(g: &FlowNetwork, source: NodeIndex, sink: NodeIndex, value: u64) -> (r: Result<Vec<i128>, CertificateError>)
    ensures
        r matches Ok(d) ==> d@.len() == g.n() && forall|v: int|
            0 <= v < g.n() ==> #[trigger] d@[v] == g.node_seq()[v].supply + (if v == source@ { value as int } else { 0 }) - (if v == sink@ { value as int } else { 0 }),
        r == Err::<Vec<i128>, CertificateError>(CertificateError::InvalidTerminal) <==> !(source@ < g.n() && sink@ < g.n() && source@ != sink@),
        r == Err::<Vec<i128>, CertificateError>(CertificateError::Unbalanced) <==> source@ < g.n() && sink@ < g.n() && source@ != sink@ && supply_prefix(*g, g.n() as int) != 0,
        r is Ok || r == Err::<Vec<i128>, CertificateError>(CertificateError::InvalidTerminal)
            || r == Err::<Vec<i128>, CertificateError>(CertificateError::Unbalanced),
{
    let s = source.as_usize();
    let t = sink.as_usize();
    if s >= g.nodes().len() || t >= g.nodes().len() || s == t {
        return Err(CertificateError::InvalidTerminal);
    }
    let mut d = match supply_divergences(g) {
        Ok(d) => d,
        Err(e) => return Err(e),
    };
    let a = d[s] + value as i128;
    d.set(s, a);
    let b = d[t] - value as i128;
    d.set(t, b);
    Ok(d)
}

} // verus!
