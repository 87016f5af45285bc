//! Mathematical model of flows on a network: divergence, bounds, value, cost
//! and cuts, with the duality facts that make certificates meaningful.
use vstd::prelude::*;

use crate::model::{FlowEdge, FlowNetwork};

verus! {

/// Flows as mathematical integers.
pub open spec fn ints(f: Seq<u64>) -> Seq<int> {
    Seq::new(f.len(), |i: int| f[i] as int)
}

/// What edge `e` carrying `x` adds to the divergence (outflow minus inflow) of `v`.
pub open spec fn contribution(e: FlowEdge, x: int, v: int) -> int {
    (if e.from@ == v { x } else { 0 }) - (if e.to@ == v { x } else { 0 })
}

/// Divergence of `v` over the first `k` edges.
pub open spec fn div_prefix(edges: Seq<FlowEdge>, f: Seq<int>, v: int, k: int) -> int
    decreases k,
{
    if k <= 0 {
        0
    } else {
        div_prefix(edges, f, v, k - 1) + contribution(edges[k - 1], f[k - 1], v)
    }
}

/// Net outflow of node `v`.
pub open spec fn divergence(g: FlowNetwork, f: Seq<int>, v: int) -> int {
    div_prefix(g.edge_seq(), f, v, g.m() as int)
}

/// Every edge carries a flow between its bounds.
pub open spec fn within_bounds(g: FlowNetwork, f: Seq<int>) -> bool {
    &&& f.len() == g.m()
    &&& forall|k: int| 0 <= k < g.m() ==> g.edge_seq()[k].lower <= #[trigger] f[k] <= g.edge_seq()[k].capacity
}

/// Every node other than the two terminals has zero divergence.
pub open spec fn conserves_except(g: FlowNetwork, f: Seq<int>, s: int, t: int) -> bool {
    forall|v: int| 0 <= v < g.n() && v != s && v != t ==> #[trigger] divergence(g, f, v) == 0
}

/// A bounded flow from `s` to `t` that conserves at every other node.
pub open spec fn feasible_st_flow(g: FlowNetwork, f: Seq<int>, s: int, t: int) -> bool {
    &&& 0 <= s < g.n()
    &&& 0 <= t < g.n()
    &&& s != t
    &&& within_bounds(g, f)
    &&& conserves_except(g, f, s, t)
}

/// The value of a flow: net outflow of the source.
pub open spec fn flow_value(g: FlowNetwork, f: Seq<int>, s: int) -> int {
    divergence(g, f, s)
}

/// A feasible flow of largest value.
pub open spec fn is_maximum_flow(g: FlowNetwork, f: Seq<int>, s: int, t: int) -> bool {
    &&& feasible_st_flow(g, f, s, t)
    &&& forall|h: Seq<int>| #[trigger] feasible_st_flow(g, h, s, t) ==> flow_value(g, h, s) <= flow_value(g, f, s)
}

/// A node set containing `s` and not `t`.
pub open spec fn is_st_cut(g: FlowNetwork, side: Seq<bool>, s: int, t: int) -> bool {
    &&& side.len() == g.n()
    &&& 0 <= s < g.n()
    &&& 0 <= t < g.n()
    &&& side[s]
    &&& !side[t]
}

/// What edge `e` adds to the capacity of the cut `side`.
pub open spec fn cut_term(e: FlowEdge, side: Seq<bool>) -> int {
    if side[e.from@ as int] && !side[e.to@ as int] {
        e.capacity as int
    } else if !side[e.from@ as int] && side[e.to@ as int] {
        -(e.lower as int)
    } else {
        0
    }
}

/// Capacity of the cut over the first `k` edges.
pub open spec fn cut_prefix(edges: Seq<FlowEdge>, side: Seq<bool>, k: int) -> int
    decreases k,
{
    if k <= 0 {
        0
    } else {
        cut_prefix(edges, side, k - 1) + cut_term(edges[k - 1], side)
    }
}

/// Capacity of a cut: upper bounds leaving it minus lower bounds entering it.
pub open spec fn cut_capacity(g: FlowNetwork, side: Seq<bool>) -> int {
    cut_prefix(g.edge_seq(), side, g.m() as int)
}

/// Cost of the first `k` edges.
pub open spec fn cost_prefix(edges: Seq<FlowEdge>, f: Seq<int>, k: int) -> int
    decreases k,
{
    if k <= 0 {
        0
    } else {
        cost_prefix(edges, f, k - 1) + edges[k - 1].cost * f[k - 1]
    }
}

/// Total cost of a flow.
pub open spec fn flow_cost(g: FlowNetwork, f: Seq<int>) -> int {
    cost_prefix(g.edge_seq(), f, g.m() as int)
}

/// A bounded flow whose divergence is `required` at every node.
pub open spec fn feasible_flow(g: FlowNetwork, f: Seq<int>, required: Seq<int>) -> bool {
    &&& within_bounds(g, f)
    &&& required.len() == g.n()
    &&& forall|v: int| 0 <= v < g.n() ==> #[trigger] divergence(g, f, v) == required[v]
}

/// A feasible flow of least cost.
pub open spec fn is_min_cost_flow(g: FlowNetwork, f: Seq<int>, required: Seq<int>) -> bool {
    &&& feasible_flow(g, f, required)
    &&& forall|h: Seq<int>| #[trigger] feasible_flow(g, h, required) ==> flow_cost(g, f) <= flow_cost(g, h)
}

/// Reduced cost of edge `e` under node potentials `p`.
pub open spec fn reduced_cost(e: FlowEdge, p: Seq<int>) -> int {
    e.cost + p[e.from@ as int] - p[e.to@ as int]
}

/// Complementary slackness: edges of positive reduced cost sit at their lower
/// bound, edges of negative reduced cost at their capacity.
pub open spec fn slackness(g: FlowNetwork, f: Seq<int>, p: Seq<int>) -> bool {
    &&& p.len() == g.n()
    &&& forall|k: int|
        0 <= k < g.m() ==> {
            let e = #[trigger] g.edge_seq()[k];
            &&& reduced_cost(e, p) > 0 ==> f[k] == e.lower
            &&& reduced_cost(e, p) < 0 ==> f[k] == e.capacity
        }
}

// ---------------------------------------------------------------------------
// Weighted node sums and the exchange of summation order.

/// Sum over nodes `v < n` of `w[v] * div_prefix(v, k)`.
pub open spec fn weighted_div(edges: Seq<FlowEdge>, f: Seq<int>, w: Seq<int>, k: int, n: int) -> int
    decreases n,
{
    if n <= 0 {
        0
    } else {
        weighted_div(edges, f, w, k, n - 1) + w[n - 1] * div_prefix(edges, f, n - 1, k)
    }
}

/// Sum over edges `e < k` of `(w[from] - w[to]) * f[e]`.
pub open spec fn weighted_edges(edges: Seq<FlowEdge>, f: Seq<int>, w: Seq<int>, k: int) -> int
    decreases k,
{
    if k <= 0 {
        0
    } else {
        weighted_edges(edges, f, w, k - 1) + (w[edges[k - 1].from@ as int] - w[edges[k - 1].to@ as int]) * f[k - 1]
    }
}

proof fn lemma_weighted_one_edge(e: FlowEdge, x: int, w: Seq<int>, n: int)
    requires
        0 <= n,
    ensures
        weighted_contribution(e, x, w, n) == (if e.from@ < n { w[e.from@ as int] * x } else { 0 }) - (if e.to@ < n { w[e.to@ as int] * x } else { 0 }),
    decreases n,
{
    if n > 0 {
        lemma_weighted_one_edge(e, x, w, n - 1);
        let v = n - 1;
        assert(w[v] * contribution(e, x, v) == (if e.from@ == v { w[v] * x } else { 0 }) - (if e.to@ == v { w[v] * x } else { 0 })) by (nonlinear_arith);
    }
}

/// Sum over nodes `v < n` of `w[v] * contribution(e, x, v)`.
pub open spec fn weighted_contribution(e: FlowEdge, x: int, w: Seq<int>, n: int) -> int
    decreases n,
{
    if n <= 0 {
        0
    } else {
        weighted_contribution(e, x, w, n - 1) + w[n - 1] * contribution(e, x, n - 1)
    }
}

proof fn lemma_weighted_div_step(edges: Seq<FlowEdge>, f: Seq<int>, w: Seq<int>, k: int, n: int)
    requires
        0 <= k,
        0 <= n,
    ensures
        weighted_div(edges, f, w, k + 1, n) == weighted_div(edges, f, w, k, n) + weighted_contribution(edges[k], f[k], w, n),
    decreases n,
{
    if n > 0 {
        lemma_weighted_div_step(edges, f, w, k, n - 1);
        let v = n - 1;
        assert(div_prefix(edges, f, v, k + 1) == div_prefix(edges, f, v, k) + contribution(edges[k], f[k], v));
        assert(w[v] * div_prefix(edges, f, v, k + 1) == w[v] * div_prefix(edges, f, v, k) + w[v] * contribution(edges[k], f[k], v)) by (nonlinear_arith)
            requires
                div_prefix(edges, f, v, k + 1) == div_prefix(edges, f, v, k) + contribution(edges[k], f[k], v),
        ;
    }
}

/// Summing weighted divergences over all nodes equals summing weighted
/// endpoint differences over all edges.
pub proof fn lemma_exchange_sums(edges: Seq<FlowEdge>, f: Seq<int>, w: Seq<int>, k: int, n: int)
    requires
        0 <= k <= edges.len(),
        0 <= n,
        forall|i: int| 0 <= i < k ==> (#[trigger] edges[i]).from@ < n && edges[i].to@ < n,
    ensures
        weighted_div(edges, f, w, k, n) == weighted_edges(edges, f, w, k),
    decreases k,
{
    if k == 0 {
        lemma_weighted_div_zero(edges, f, w, n);
    } else {
        lemma_exchange_sums(edges, f, w, k - 1, n);
        lemma_weighted_div_step(edges, f, w, k - 1, n);
        lemma_weighted_one_edge(edges[k - 1], f[k - 1], w, n);
        let e = edges[k - 1];
        assert(w[e.from@ as int] * f[k - 1] - w[e.to@ as int] * f[k - 1] == (w[e.from@ as int] - w[e.to@ as int]) * f[k - 1]) by (nonlinear_arith);
    }
}

proof fn lemma_weighted_div_zero(edges: Seq<FlowEdge>, f: Seq<int>, w: Seq<int>, n: int)
    requires
        0 <= n,
    ensures
        weighted_div(edges, f, w, 0, n) == 0,
    decreases n,
{
    if n > 0 {
        lemma_weighted_div_zero(edges, f, w, n - 1);
        assert(w[n - 1] * 0 == 0) by (nonlinear_arith);
    }
}

// ---------------------------------------------------------------------------
// Linearity in the flow.

/// Pointwise difference of two flows.
pub open spec fn flow_diff(a: Seq<int>, b: Seq<int>) -> Seq<int> {
    Seq::new(a.len(), |i: int| a[i] - b[i])
}

proof fn lemma_div_prefix_diff(edges: Seq<FlowEdge>, a: Seq<int>, b: Seq<int>, v: int, k: int)
    requires
        0 <= k <= a.len(),
        a.len() == b.len(),
    ensures
        div_prefix(edges, flow_diff(a, b), v, k) == div_prefix(edges, a, v, k) - div_prefix(edges, b, v, k),
    decreases k,
{
    if k > 0 {
        lemma_div_prefix_diff(edges, a, b, v, k - 1);
    }
}

proof fn lemma_cost_prefix_diff(edges: Seq<FlowEdge>, a: Seq<int>, b: Seq<int>, k: int)
    requires
        0 <= k <= a.len(),
        a.len() == b.len(),
    ensures
        cost_prefix(edges, a, k) - cost_prefix(edges, b, k) == cost_diff_prefix(edges, flow_diff(a, b), k),
    decreases k,
{
    if k > 0 {
        lemma_cost_prefix_diff(edges, a, b, k - 1);
        let c = edges[k - 1].cost as int;
        assert(c * a[k - 1] - c * b[k - 1] == c * (a[k - 1] - b[k - 1])) by (nonlinear_arith);
    }
}

/// Cost of a signed flow difference over the first `k` edges.
pub open spec fn cost_diff_prefix(edges: Seq<FlowEdge>, d: Seq<int>, k: int) -> int
    decreases k,
{
    if k <= 0 {
        0
    } else {
        cost_diff_prefix(edges, d, k - 1) + edges[k - 1].cost * d[k - 1]
    }
}

/// Sum over edges of reduced cost times flow.
pub open spec fn reduced_prefix(edges: Seq<FlowEdge>, d: Seq<int>, p: Seq<int>, k: int) -> int
    decreases k,
{
    if k <= 0 {
        0
    } else {
        reduced_prefix(edges, d, p, k - 1) + reduced_cost(edges[k - 1], p) * d[k - 1]
    }
}

proof fn lemma_cost_split(edges: Seq<FlowEdge>, d: Seq<int>, p: Seq<int>, k: int)
    requires
        0 <= k <= d.len(),
    ensures
        cost_diff_prefix(edges, d, k) == reduced_prefix(edges, d, p, k) - weighted_edges(edges, d, p, k),
    decreases k,
{
    if k > 0 {
        lemma_cost_split(edges, d, p, k - 1);
        let e = edges[k - 1];
        let x = d[k - 1];
        let a = p[e.from@ as int];
        let b = p[e.to@ as int];
        assert(e.cost * x == (e.cost + a - b) * x - (a - b) * x) by (nonlinear_arith);
    }
}

proof fn lemma_weighted_div_zero_when_balanced(edges: Seq<FlowEdge>, d: Seq<int>, w: Seq<int>, k: int, n: int)
    requires
        0 <= n,
        forall|v: int| 0 <= v < n ==> #[trigger] div_prefix(edges, d, v, k) == 0,
    ensures
        weighted_div(edges, d, w, k, n) == 0,
    decreases n,
{
    if n > 0 {
        lemma_weighted_div_zero_when_balanced(edges, d, w, k, n - 1);
        assert(div_prefix(edges, d, n - 1, k) == 0);
        assert(w[n - 1] * 0 == 0) by (nonlinear_arith);
    }
}

proof fn lemma_reduced_nonneg(g: FlowNetwork, f: Seq<int>, h: Seq<int>, p: Seq<int>, k: int)
    requires
        0 <= k <= g.m(),
        within_bounds(g, f),
        within_bounds(g, h),
        slackness(g, f, p),
    ensures
        reduced_prefix(g.edge_seq(), flow_diff(h, f), p, k) >= 0,
    decreases k,
{
    if k > 0 {
        lemma_reduced_nonneg(g, f, h, p, k - 1);
        let e = g.edge_seq()[k - 1];
        let rc = reduced_cost(e, p);
        let x = h[k - 1] - f[k - 1];
        assert(g.edge_seq()[k - 1].lower <= h[k - 1] <= g.edge_seq()[k - 1].capacity);
        assert(g.edge_seq()[k - 1].lower <= f[k - 1] <= g.edge_seq()[k - 1].capacity);
        if rc > 0 {
            assert(x >= 0);
            assert(rc * x >= 0) by (nonlinear_arith)
                requires
                    rc > 0,
                    x >= 0,
            ;
        } else if rc < 0 {
            assert(x <= 0);
            assert(rc * x >= 0) by (nonlinear_arith)
                requires
                    rc < 0,
                    x <= 0,
            ;
        } else {
            assert(rc * x == 0) by (nonlinear_arith)
                requires
                    rc == 0,
            ;
        }
    }
}

/// Optimality of a flow under complementary slackness: a feasible flow with
/// node potentials satisfying complementary slackness costs no more than any
/// other feasible flow with the same divergences.
pub proof fn lemma_slackness_implies_min_cost(g: FlowNetwork, f: Seq<int>, h: Seq<int>, required: Seq<int>, p: Seq<int>)
    requires
        g.wf(),
        feasible_flow(g, f, required),
        feasible_flow(g, h, required),
        slackness(g, f, p),
    ensures
        flow_cost(g, f) <= flow_cost(g, h),
{
    let edges = g.edge_seq();
    let m = g.m() as int;
    let n = g.n() as int;
    let d = flow_diff(h, f);
    lemma_cost_prefix_diff(edges, h, f, m);
    lemma_cost_split(edges, d, p, m);
    assert forall|i: int| 0 <= i < m implies (#[trigger] edges[i]).from@ < n && edges[i].to@ < n by {
        assert(g.wf());
    }
    lemma_exchange_sums(edges, d, p, m, n);
    assert forall|v: int| 0 <= v < n implies #[trigger] div_prefix(edges, d, v, m) == 0 by {
        lemma_div_prefix_diff(edges, h, f, v, m);
        assert(divergence(g, h, v) == required[v]);
        assert(divergence(g, f, v) == required[v]);
    }
    lemma_weighted_div_zero_when_balanced(edges, d, p, m, n);
    lemma_reduced_nonneg(g, f, h, p, m);
}

// ---------------------------------------------------------------------------
// Weak duality between flows and cuts.

/// Indicator weights of a node set.
pub open spec fn indicator(side: Seq<bool>) -> Seq<int> {
    Seq::new(side.len(), |v: int| if side[v] { 1int } else { 0int })
}

proof fn lemma_indicator_sum(g: FlowNetwork, f: Seq<int>, side: Seq<bool>, s: int, t: int, n: int)
    requires
        is_st_cut(g, side, s, t),
        conserves_except(g, f, s, t),
        0 <= n <= g.n(),
    ensures
        weighted_div(g.edge_seq(), f, indicator(side), g.m() as int, n) == (if s < n { divergence(g, f, s) } else { 0 }),
    decreases n,
{
    if n > 0 {
        lemma_indicator_sum(g, f, side, s, t, n - 1);
        let v = n - 1;
        let w = indicator(side);
        if v == s {
            assert(w[v] == 1);
        } else if v == t {
            assert(w[v] == 0);
        } else {
            assert(divergence(g, f, v) == 0);
        }
    }
}

pub(crate) proof fn lemma_cut_bounds_edges(g: FlowNetwork, f: Seq<int>, side: Seq<bool>, k: int)
    requires
        g.wf(),
        side.len() == g.n(),
        within_bounds(g, f),
        0 <= k <= g.m(),
    ensures
        weighted_edges(g.edge_seq(), f, indicator(side), k) <= cut_prefix(g.edge_seq(), side, k),
    decreases k,
{
    if k > 0 {
        lemma_cut_bounds_edges(g, f, side, k - 1);
        let e = g.edge_seq()[k - 1];
        assert(e.from@ < g.n() && e.to@ < g.n());
        assert(e.lower <= f[k - 1] <= e.capacity);
        lemma_indicator_term(e, f[k - 1], side);
    }
}

/// Weak duality: the value of every feasible flow is at most the capacity of
/// every cut separating source from sink.
pub proof fn lemma_flow_value_at_most_cut(g: FlowNetwork, f: Seq<int>, side: Seq<bool>, s: int, t: int)
    requires
        g.wf(),
        feasible_st_flow(g, f, s, t),
        is_st_cut(g, side, s, t),
    ensures
        flow_value(g, f, s) <= cut_capacity(g, side),
{
    let edges = g.edge_seq();
    let m = g.m() as int;
    let n = g.n() as int;
    lemma_indicator_sum(g, f, side, s, t, n);
    assert forall|i: int| 0 <= i < m implies (#[trigger] edges[i]).from@ < n && edges[i].to@ < n by {}
    lemma_exchange_sums(edges, f, indicator(side), m, n);
    lemma_cut_bounds_edges(g, f, side, m);
}

proof fn lemma_indicator_term(e: FlowEdge, x: int, side: Seq<bool>)
    requires
        e.from@ < side.len(),
        e.to@ < side.len(),
    ensures
        (indicator(side)[e.from@ as int] - indicator(side)[e.to@ as int]) * x == (if side[e.from@ as int] && !side[e.to@ as int] {
            x
        } else if !side[e.from@ as int] && side[e.to@ as int] {
            -x
        } else {
            0
        }),
{
    let w = indicator(side);
    let a = w[e.from@ as int];
    let b = w[e.to@ as int];
    if side[e.from@ as int] && !side[e.to@ as int] {
        assert(a - b == 1);
    } else if !side[e.from@ as int] && side[e.to@ as int] {
        assert(a - b == -1);
    } else {
        assert(a - b == 0);
    }
    assert((a - b) * x == (if a - b == 1 { x } else if a - b == -1 { -x } else { 0 })) by (nonlinear_arith)
        requires
            a - b == 1 || a - b == -1 || a - b == 0,
    ;
}

/// A cut whose edges leaving it are saturated and whose edges entering it sit
/// at their lower bound carries exactly its capacity.
pub proof fn lemma_saturated_cut_value(g: FlowNetwork, f: Seq<int>, side: Seq<bool>, s: int, t: int)
    requires
        g.wf(),
        feasible_st_flow(g, f, s, t),
        is_st_cut(g, side, s, t),
        forall|k: int|
            0 <= k < g.m() ==> {
                let e = #[trigger] g.edge_seq()[k];
                &&& (side[e.from@ as int] && !side[e.to@ as int]) ==> f[k] == e.capacity
                &&& (!side[e.from@ as int] && side[e.to@ as int]) ==> f[k] == e.lower
            },
    ensures
        flow_value(g, f, s) == cut_capacity(g, side),
{
    let edges = g.edge_seq();
    let m = g.m() as int;
    let n = g.n() as int;
    lemma_indicator_sum(g, f, side, s, t, n);
    assert forall|i: int| 0 <= i < m implies (#[trigger] edges[i]).from@ < n && edges[i].to@ < n by {}
    lemma_exchange_sums(edges, f, indicator(side), m, n);
    lemma_saturated_edges(g, f, side, m);
}

proof fn lemma_saturated_edges(g: FlowNetwork, f: Seq<int>, side: Seq<bool>, k: int)
    requires
        g.wf(),
        side.len() == g.n(),
        within_bounds(g, f),
        0 <= k <= g.m(),
        forall|j: int|
            0 <= j < g.m() ==> {
                let e = #[trigger] g.edge_seq()[j];
                &&& (side[e.from@ as int] && !side[e.to@ as int]) ==> f[j] == e.capacity
                &&& (!side[e.from@ as int] && side[e.to@ as int]) ==> f[j] == e.lower
            },
    ensures
        weighted_edges(g.edge_seq(), f, indicator(side), k) == cut_prefix(g.edge_seq(), side, k),
    decreases k,
{
    if k > 0 {
        lemma_saturated_edges(g, f, side, k - 1);
        let e = g.edge_seq()[k - 1];
        assert(e.from@ < g.n() && e.to@ < g.n());
        lemma_indicator_term(e, f[k - 1], side);
    }
}

/// A feasible flow whose value equals the capacity of some separating cut is maximum.
pub proof fn lemma_cut_certifies_maximum(g: FlowNetwork, f: Seq<int>, side: Seq<bool>, s: int, t: int)
    requires
        g.wf(),
        feasible_st_flow(g, f, s, t),
        is_st_cut(g, side, s, t),
        flow_value(g, f, s) == cut_capacity(g, side),
    ensures
        is_maximum_flow(g, f, s, t),
{
    assert forall|h: Seq<int>| #[trigger] feasible_st_flow(g, h, s, t) implies flow_value(g, h, s) <= flow_value(g, f, s) by {
        lemma_flow_value_at_most_cut(g, h, side, s, t);
    }
}

/// A feasible flow with slackness-certifying potentials is of minimum cost.
pub proof fn lemma_slackness_certifies_min_cost(g: FlowNetwork, f: Seq<int>, required: Seq<int>, p: Seq<int>)
    requires
        g.wf(),
        feasible_flow(g, f, required),
        slackness(g, f, p),
    ensures
        is_min_cost_flow(g, f, required),
{
    assert forall|h: Seq<int>| #[trigger] feasible_flow(g, h, required) implies flow_cost(g, f) <= flow_cost(g, h) by {
        lemma_slackness_implies_min_cost(g, f, h, required, p);
    }
}

} // verus!
