//! What a perfect `b`-matching of the bipartite reduction means for the
//! original unit-capacity network: the flow it encodes on the direct arcs
//! is a feasible source-to-sink flow whose value is the reduction's target.
use vstd::prelude::*;

use crate::flows::{contribution, div_prefix, divergence, feasible_st_flow, flow_value};
use crate::interior_point::{
    encoded_flow, free_rank, ipm_admitted, ipm_unit_instance, lemma_free_rank_injective,
    lemma_relevant_before_monotone, lemma_relevant_position, p_degree, perfect_b_matching, q_degree, reduction_layout,
    reduction_refused, relevant_before, relevant_edge, relevant_into, relevant_out_of,
    BipartiteReduction,
};
use crate::model::{FlowEdge, FlowNetwork};

verus! {

/// The flow a `b`-matching encodes on all `m` original edges.
pub open spec fn encoded_flows(red: BipartiteReduction, matching: Seq<u64>, m: nat) -> Seq<int> {
    Seq::new(m, |k: int| encoded_flow(red, matching, k) as int)
}

/// The reduction layout, kept folded where only its consequences are used.
#[verifier::opaque]
spec fn layout_holds(g: FlowNetwork, s: int, t: int, target: nat, red: BipartiteReduction) -> bool {
    reduction_layout(g, s, t, target, red)
}

/// A perfect `b`-matching, kept folded where only its consequences are used.
#[verifier::opaque]
spec fn matched(red: BipartiteReduction, x: Seq<u64>) -> bool {
    perfect_b_matching(red, x)
}

/// Flow into `v` over the first `k` edges.
pub open spec fn inflow(edges: Seq<FlowEdge>, f: Seq<int>, v: int, k: int) -> int
    decreases k,
{
    if k <= 0 { 0 } else { inflow(edges, f, v, k - 1) + if edges[k - 1].to@ == v { f[k - 1] } else { 0 } }
}

/// Flow out of `v` over the first `k` edges.
pub open spec fn outflow(edges: Seq<FlowEdge>, f: Seq<int>, v: int, k: int) -> int
    decreases k,
{
    if k <= 0 { 0 } else { outflow(edges, f, v, k - 1) + if edges[k - 1].from@ == v { f[k - 1] } else { 0 } }
}

proof fn lemma_divergence_split(edges: Seq<FlowEdge>, f: Seq<int>, v: int, k: int)
    requires
        k >= 0,
    ensures
        div_prefix(edges, f, v, k) == outflow(edges, f, v, k) - inflow(edges, f, v, k),
    decreases k,
{
    if k > 0 {
        lemma_divergence_split(edges, f, v, k - 1);
        assert(contribution(edges[k - 1], f[k - 1], v) == (if edges[k - 1].from@ == v { f[k - 1] } else { 0 }) - (if edges[k - 1].to@ == v { f[k - 1] } else { 0 }));
    }
}

proof fn lemma_relevant_before_at_most(g: FlowNetwork, s: int, t: int, k: int)
    requires
        k >= 0,
    ensures
        relevant_before(g, s, t, k) <= k,
    decreases k,
{
    if k > 0 {
        lemma_relevant_before_at_most(g, s, t, k - 1);
    }
}

/// Every relevant position below `relevant_before(k)` is taken by a relevant
/// edge below `k`.
proof fn lemma_relevant_onto(g: FlowNetwork, s: int, t: int, k: int, i: int)
    requires
        k >= 0,
        0 <= i < relevant_before(g, s, t, k),
    ensures
        exists|k2: int| 0 <= k2 < k && relevant_edge(g, s, t, k2) && #[trigger] relevant_before(g, s, t, k2) == i,
    decreases k,
{
    if i < relevant_before(g, s, t, k - 1) {
        lemma_relevant_onto(g, s, t, k - 1, i);
        let k2 = choose|k2: int| 0 <= k2 < k - 1 && relevant_edge(g, s, t, k2) && #[trigger] relevant_before(g, s, t, k2) == i;
        assert(relevant_before(g, s, t, k2) == i);
    } else {
        assert(relevant_edge(g, s, t, k - 1) && relevant_before(g, s, t, k - 1) == i);
    }
}

/// Every rank below `n - 2` belongs to a non-terminal node, and every
/// non-terminal node's rank is below `n - 2`.
proof fn lemma_rank_onto(n: int, s: int, t: int, q: int)
    requires
        0 <= s < n,
        0 <= t < n,
        s != t,
        0 <= q < n - 2,
    ensures
        exists|v: int| 0 <= v < n && v != s && v != t && #[trigger] free_rank(s, t, v) == q,
{
    let a = if s < t { s } else { t };
    let b = if s < t { t } else { s };
    let v = if q < a { q } else if q + 1 < b { q + 1 } else { q + 2 };
    assert(0 <= v < n && v != s && v != t && free_rank(s, t, v) == q);
}

proof fn lemma_rank_range(n: int, s: int, t: int, v: int)
    requires
        0 <= s < n,
        0 <= t < n,
        s != t,
        0 <= v < n,
        v != s,
        v != t,
    ensures
        0 <= free_rank(s, t, v) <= n - 3,
{
}

/// Sizes of the reduction, and the demands of the vertices past the edge
/// vertices.
proof fn lemma_layout_sizes(g: FlowNetwork, s: int, t: int, target: nat, red: BipartiteReduction)
    requires
        g.wf(),
        ipm_admitted(g),
        0 <= s < g.n(),
        0 <= t < g.n(),
        s != t,
        layout_holds(g, s, t, target, red),
    ensures
        ({
            let n = g.n() as int;
            let m = g.m() as int;
            let r = relevant_before(g, s, t, m) as int;
            let last = r + n - 2;
            &&& r <= m
            &&& red.p@.len() == r + n - 1
            &&& red.q@.len() == r + n - 1
            &&& red.edges@.len() == 3 * r + n - 2
            &&& red.original_direct_edge@.len() == m
            &&& red.p@[last].demand == (relevant_into(g, s, t, t, m) - target) as u64
            &&& red.q@[last].demand == (relevant_out_of(g, s, t, s, m) - target) as u64
        }),
{
    reveal(layout_holds);
    lemma_relevant_before_at_most(g, s, t, g.m() as int);
}

/// Demands of the two vertices of a non-terminal node.
proof fn lemma_node_demands(g: FlowNetwork, s: int, t: int, target: nat, red: BipartiteReduction, v: int)
    requires
        g.wf(),
        ipm_admitted(g),
        0 <= s < g.n(),
        0 <= t < g.n(),
        s != t,
        layout_holds(g, s, t, target, red),
        0 <= v < g.n(),
        v != s,
        v != t,
    ensures
        ({
            let m = g.m() as int;
            let j = relevant_before(g, s, t, m) + free_rank(s, t, v);
            &&& red.p@[j].demand == relevant_into(g, s, t, v, m)
            &&& red.q@[j].demand == relevant_out_of(g, s, t, v, m)
        }),
{
    reveal(layout_holds);
    lemma_relevant_into_at_most(g, s, t, v, g.m() as int);
    lemma_relevant_out_of_at_most(g, s, t, v, g.m() as int);
    assert(free_rank(s, t, v) == free_rank(s, t, v));
}

proof fn lemma_relevant_into_at_most(g: FlowNetwork, s: int, t: int, v: int, k: int)
    requires
        k >= 0,
    ensures
        relevant_into(g, s, t, v, k) <= k,
    decreases k,
{
    if k > 0 {
        lemma_relevant_into_at_most(g, s, t, v, k - 1);
    }
}

proof fn lemma_relevant_out_of_at_most(g: FlowNetwork, s: int, t: int, v: int, k: int)
    requires
        k >= 0,
    ensures
        relevant_out_of(g, s, t, v, k) <= k,
    decreases k,
{
    if k > 0 {
        lemma_relevant_out_of_at_most(g, s, t, v, k - 1);
    }
}

/// The three reduction edges of the relevant edge `k`, at positions `3i`,
/// `3i + 1` and `3i + 2` for `i = relevant_before(k)`.
proof fn lemma_edge_triple(g: FlowNetwork, s: int, t: int, target: nat, red: BipartiteReduction, k: int)
    requires
        g.wf(),
        ipm_admitted(g),
        0 <= s < g.n(),
        0 <= t < g.n(),
        s != t,
        layout_holds(g, s, t, target, red),
        0 <= k < g.m(),
        relevant_edge(g, s, t, k),
    ensures
        ({
            let i = relevant_before(g, s, t, k) as int;
            let r = relevant_before(g, s, t, g.m() as int) as int;
            let last = r + g.n() - 2;
            let e = g.edge_seq()[k];
            &&& 0 <= i < r <= g.m()
            &&& red.original_direct_edge@[k] == Some((3 * i) as usize)
            &&& ((3 * i) as usize) as int == 3 * i
            &&& red.p@[i].demand == 1
            &&& red.q@[i].demand == 1
            &&& red.edges@[3 * i].p == i && red.edges@[3 * i].q == i
            &&& red.edges@[3 * i + 1].p == i && red.edges@[3 * i + 2].q == i
            &&& r <= red.edges@[3 * i + 1].q <= last
            &&& r <= red.edges@[3 * i + 2].p <= last
            &&& (red.edges@[3 * i + 1].q == last <==> e.from@ == s)
            &&& (red.edges@[3 * i + 2].p == last <==> e.to@ == t)
            &&& e.from@ != s ==> red.edges@[3 * i + 1].q == r + free_rank(s, t, e.from@ as int)
            &&& e.to@ != t ==> red.edges@[3 * i + 2].p == r + free_rank(s, t, e.to@ as int)
        }),
{
    reveal(layout_holds);
    let n = g.n() as int;
    let m = g.m() as int;
    let r = relevant_before(g, s, t, m) as int;
    let i = relevant_before(g, s, t, k) as int;
    let e = g.edge_seq()[k];
    lemma_relevant_before_monotone(g, s, t, k + 1, m);
    lemma_relevant_before_at_most(g, s, t, m);
    assert(red.original_direct_edge@[k] == Some((3 * i) as usize));
    assert(e.from@ < n && e.to@ < n);
    if e.from@ != s {
        lemma_rank_range(n, s, t, e.from@ as int);
    }
    if e.to@ != t {
        lemma_rank_range(n, s, t, e.to@ as int);
    }
    assert(red.edges@.len() == 3 * r + n - 2);
}

/// The reduction edge at a position `e` past the `3r` edge copies joins the
/// left and right vertices `e - 2r` of a non-terminal node.
proof fn lemma_edge_internal(g: FlowNetwork, s: int, t: int, target: nat, red: BipartiteReduction, e: int)
    requires
        g.wf(),
        ipm_admitted(g),
        0 <= s < g.n(),
        0 <= t < g.n(),
        s != t,
        layout_holds(g, s, t, target, red),
        3 * relevant_before(g, s, t, g.m() as int) <= e < red.edges@.len(),
    ensures
        red.edges@[e].p == e - 2 * relevant_before(g, s, t, g.m() as int),
        red.edges@[e].q == e - 2 * relevant_before(g, s, t, g.m() as int),
{
    reveal(layout_holds);
    let n = g.n() as int;
    let r = relevant_before(g, s, t, g.m() as int) as int;
    lemma_relevant_before_at_most(g, s, t, g.m() as int);
    lemma_rank_onto(n, s, t, e - 3 * r);
    let v = choose|v: int| 0 <= v < n && v != s && v != t && #[trigger] free_rank(s, t, v) == e - 3 * r;
    assert(free_rank(s, t, v) == e - 3 * r);
}

/// Every reduction edge before position `3r` belongs to the triple of a
/// relevant edge.
proof fn lemma_edge_in_triple(g: FlowNetwork, s: int, t: int, target: nat, red: BipartiteReduction, e: int) -> (k: int)
    requires
        g.wf(),
        ipm_admitted(g),
        0 <= s < g.n(),
        0 <= t < g.n(),
        s != t,
        layout_holds(g, s, t, target, red),
        0 <= e < 3 * relevant_before(g, s, t, g.m() as int),
    ensures
        0 <= k < g.m(),
        relevant_edge(g, s, t, k),
        3 * (relevant_before(g, s, t, k) as int) <= e < 3 * (relevant_before(g, s, t, k) as int) + 3,
{
    let m = g.m() as int;
    let i = e / 3;
    lemma_relevant_onto(g, s, t, m, i);
    let k = choose|k2: int| 0 <= k2 < m && relevant_edge(g, s, t, k2) && #[trigger] relevant_before(g, s, t, k2) == i;
    k
}

/// An edge that is not relevant has no direct reduction edge.
proof fn lemma_irrelevant_none(g: FlowNetwork, s: int, t: int, target: nat, red: BipartiteReduction, k: int)
    requires
        layout_holds(g, s, t, target, red),
        0 <= k < g.m(),
        !relevant_edge(g, s, t, k),
    ensures
        red.original_direct_edge@[k] is None,
{
    reveal(layout_holds);
}

/// Left degree of a vertex that only the reduction edges `a < b` touch.
proof fn lemma_p_degree_two(red: BipartiteReduction, x: Seq<u64>, i: int, a: int, b: int, k: int)
    requires
        0 <= a < b,
        0 <= k <= red.edges@.len(),
        b < red.edges@.len(),
        red.edges@[a].p == i,
        red.edges@[b].p == i,
        forall|e: int| 0 <= e < red.edges@.len() && e != a && e != b ==> #[trigger] red.edges@[e].p != i,
    ensures
        p_degree(red, x, i, k) == (if a < k { x[a] as nat } else { 0 }) + (if b < k { x[b] as nat } else { 0 }),
    decreases k,
{
    if k > 0 {
        lemma_p_degree_two(red, x, i, a, b, k - 1);
    }
}

/// Right degree of a vertex that only the reduction edges `a < b` touch.
proof fn lemma_q_degree_two(red: BipartiteReduction, x: Seq<u64>, i: int, a: int, b: int, k: int)
    requires
        0 <= a < b,
        0 <= k <= red.edges@.len(),
        b < red.edges@.len(),
        red.edges@[a].q == i,
        red.edges@[b].q == i,
        forall|e: int| 0 <= e < red.edges@.len() && e != a && e != b ==> #[trigger] red.edges@[e].q != i,
    ensures
        q_degree(red, x, i, k) == (if a < k { x[a] as nat } else { 0 }) + (if b < k { x[b] as nat } else { 0 }),
    decreases k,
{
    if k > 0 {
        lemma_q_degree_two(red, x, i, a, b, k - 1);
    }
}

/// Past the edge copies, a vertex `j` gains only its own node edge `j + 2r`.
proof fn lemma_degree_tail(red: BipartiteReduction, x: Seq<u64>, j: int, r: int, k: int)
    requires
        0 <= r,
        3 * r <= k <= red.edges@.len(),
        forall|e: int| #![trigger red.edges@[e]] 3 * r <= e < red.edges@.len() ==> red.edges@[e].p == e - 2 * r && red.edges@[e].q == e - 2 * r,
    ensures
        p_degree(red, x, j, k) == p_degree(red, x, j, 3 * r) + (if 3 * r <= j + 2 * r < k { x[j + 2 * r] as nat } else { 0 }),
        q_degree(red, x, j, k) == q_degree(red, x, j, 3 * r) + (if 3 * r <= j + 2 * r < k { x[j + 2 * r] as nat } else { 0 }),
    decreases k,
{
    if k > 3 * r {
        lemma_degree_tail(red, x, j, r, k - 1);
        assert(red.edges@[k - 1].p == k - 1 - 2 * r);
    }
}

/// The vertices of relevant edges meet their unit demands only if each
/// relevant edge's direct arc and one of its two side arcs carry one unit.
proof fn lemma_unit_vertices(g: FlowNetwork, s: int, t: int, target: nat, red: BipartiteReduction, x: Seq<u64>, k: int)
    requires
        g.wf(),
        ipm_admitted(g),
        0 <= s < g.n(),
        0 <= t < g.n(),
        s != t,
        layout_holds(g, s, t, target, red),
        matched(red, x),
        0 <= k < g.m(),
        relevant_edge(g, s, t, k),
    ensures
        ({
            let i = relevant_before(g, s, t, k) as int;
            &&& x[3 * i] + x[3 * i + 1] == 1
            &&& x[3 * i] + x[3 * i + 2] == 1
        }),
{
    let m = g.m() as int;
    let r = relevant_before(g, s, t, m) as int;
    let i = relevant_before(g, s, t, k) as int;
    let len = red.edges@.len() as int;
    reveal(matched);
    lemma_layout_sizes(g, s, t, target, red);
    lemma_edge_triple(g, s, t, target, red, k);
    assert forall|e: int| 0 <= e < len && e != 3 * i && e != 3 * i + 1 implies #[trigger] red.edges@[e].p != i by {
        if e < 3 * r {
            let k2 = lemma_edge_in_triple(g, s, t, target, red, e);
            lemma_edge_triple(g, s, t, target, red, k2);
            let i2 = relevant_before(g, s, t, k2) as int;
            if i2 == i {
                lemma_relevant_position(g, s, t, k, k2);
            }
        } else {
            lemma_edge_internal(g, s, t, target, red, e);
        }
    }
    assert forall|e: int| 0 <= e < len && e != 3 * i && e != 3 * i + 2 implies #[trigger] red.edges@[e].q != i by {
        if e < 3 * r {
            let k2 = lemma_edge_in_triple(g, s, t, target, red, e);
            lemma_edge_triple(g, s, t, target, red, k2);
            let i2 = relevant_before(g, s, t, k2) as int;
            if i2 == i {
                lemma_relevant_position(g, s, t, k, k2);
            }
        } else {
            lemma_edge_internal(g, s, t, target, red, e);
        }
    }
    lemma_p_degree_two(red, x, i, 3 * i, 3 * i + 1, len);
    lemma_q_degree_two(red, x, i, 3 * i, 3 * i + 2, len);
    assert(p_degree(red, x, i, len) == red.p@[i].demand);
    assert(q_degree(red, x, i, len) == red.q@[i].demand);
}

/// Left degree of a vertex `j` past the edge vertices, over the copies of the
/// first `k` original edges, plus the flow into `v`: the relevant in-degree
/// of `v`, when `j` is the head vertex of exactly the relevant edges into `v`.
proof fn lemma_p_prefix(g: FlowNetwork, s: int, t: int, target: nat, red: BipartiteReduction, x: Seq<u64>, v: int, j: int, k: int)
    requires
        g.wf(),
        ipm_admitted(g),
        0 <= s < g.n(),
        0 <= t < g.n(),
        s != t,
        layout_holds(g, s, t, target, red),
        matched(red, x),
        j >= relevant_before(g, s, t, g.m() as int),
        forall|k2: int| 0 <= k2 < g.m() && #[trigger] relevant_edge(g, s, t, k2)
            ==> (red.edges@[3 * (relevant_before(g, s, t, k2) as int) + 2].p == j <==> g.edge_seq()[k2].to@ == v),
        0 <= k <= g.m(),
    ensures
        p_degree(red, x, j, 3 * (relevant_before(g, s, t, k) as int)) + inflow(g.edge_seq(), encoded_flows(red, x, g.m()), v, k)
            == relevant_into(g, s, t, v, k),
    decreases k,
{
    if k > 0 {
        lemma_p_prefix(g, s, t, target, red, x, v, j, k - 1);
        let i = relevant_before(g, s, t, k - 1) as int;
        let f = encoded_flows(red, x, g.m());
        if relevant_edge(g, s, t, k - 1) {
            lemma_edge_triple(g, s, t, target, red, k - 1);
            lemma_unit_vertices(g, s, t, target, red, x, k - 1);
            assert(f[k - 1] == x[3 * i]);
            assert(p_degree(red, x, j, 3 * i + 1) == p_degree(red, x, j, 3 * i));
            assert(p_degree(red, x, j, 3 * i + 2) == p_degree(red, x, j, 3 * i + 1));
            assert(p_degree(red, x, j, 3 * i + 3) == p_degree(red, x, j, 3 * i + 2) + if red.edges@[3 * i + 2].p == j { x[3 * i + 2] as nat } else { 0 });
        } else {
            lemma_irrelevant_none(g, s, t, target, red, k - 1);
            assert(f[k - 1] == 0);
        }
    }
}

/// Right degree of a vertex `j` past the edge vertices, over the copies of
/// the first `k` original edges, plus the flow out of `v`: the relevant
/// out-degree of `v`, when `j` is the tail vertex of exactly the relevant
/// edges out of `v`.
proof fn lemma_q_prefix(g: FlowNetwork, s: int, t: int, target: nat, red: BipartiteReduction, x: Seq<u64>, v: int, j: int, k: int)
    requires
        g.wf(),
        ipm_admitted(g),
        0 <= s < g.n(),
        0 <= t < g.n(),
        s != t,
        layout_holds(g, s, t, target, red),
        matched(red, x),
        j >= relevant_before(g, s, t, g.m() as int),
        forall|k2: int| 0 <= k2 < g.m() && #[trigger] relevant_edge(g, s, t, k2)
            ==> (red.edges@[3 * (relevant_before(g, s, t, k2) as int) + 1].q == j <==> g.edge_seq()[k2].from@ == v),
        0 <= k <= g.m(),
    ensures
        q_degree(red, x, j, 3 * (relevant_before(g, s, t, k) as int)) + outflow(g.edge_seq(), encoded_flows(red, x, g.m()), v, k)
            == relevant_out_of(g, s, t, v, k),
    decreases k,
{
    if k > 0 {
        lemma_q_prefix(g, s, t, target, red, x, v, j, k - 1);
        let i = relevant_before(g, s, t, k - 1) as int;
        let f = encoded_flows(red, x, g.m());
        if relevant_edge(g, s, t, k - 1) {
            lemma_edge_triple(g, s, t, target, red, k - 1);
            lemma_unit_vertices(g, s, t, target, red, x, k - 1);
            assert(f[k - 1] == x[3 * i]);
            assert(q_degree(red, x, j, 3 * i + 1) == q_degree(red, x, j, 3 * i));
            assert(q_degree(red, x, j, 3 * i + 2) == q_degree(red, x, j, 3 * i + 1) + if red.edges@[3 * i + 1].q == j { x[3 * i + 1] as nat } else { 0 });
            assert(q_degree(red, x, j, 3 * i + 3) == q_degree(red, x, j, 3 * i + 2));
        } else {
            lemma_irrelevant_none(g, s, t, target, red, k - 1);
            assert(f[k - 1] == 0);
        }
    }
}

/// No encoded flow enters the source: no edge into it is relevant.
proof fn lemma_inflow_source(g: FlowNetwork, s: int, t: int, target: nat, red: BipartiteReduction, x: Seq<u64>, k: int)
    requires
        layout_holds(g, s, t, target, red),
        0 <= k <= g.m(),
    ensures
        inflow(g.edge_seq(), encoded_flows(red, x, g.m()), s, k) == 0,
    decreases k,
{
    reveal(layout_holds);
    if k > 0 {
        lemma_inflow_source(g, s, t, target, red, x, k - 1);
        if g.edge_seq()[k - 1].to@ == s {
            assert(red.original_direct_edge@[k - 1] is None);
        }
    }
}

/// The node edges after the `3r` edge copies.
proof fn lemma_node_edges(g: FlowNetwork, s: int, t: int, target: nat, red: BipartiteReduction, r: int)
    requires
        g.wf(),
        ipm_admitted(g),
        0 <= s < g.n(),
        0 <= t < g.n(),
        s != t,
        layout_holds(g, s, t, target, red),
        r == relevant_before(g, s, t, g.m() as int),
    ensures
        forall|e: int| #![trigger red.edges@[e]] 3 * r <= e < red.edges@.len() ==> red.edges@[e].p == e - 2 * r && red.edges@[e].q == e - 2 * r,
{
    assert forall|e: int| #![trigger red.edges@[e]] 3 * r <= e < red.edges@.len() implies red.edges@[e].p == e - 2 * r && red.edges@[e].q == e - 2 * r by {
        lemma_edge_internal(g, s, t, target, red, e);
    }
}

/// A perfect `b`-matching of the reduction of a unit-capacity network for an
/// admissible `target` encodes, on the direct arcs of the relevant edges, a
/// feasible flow from `s` to `t` whose value is exactly `target`.
pub proof fn lemma_matching_encodes_flow(g: FlowNetwork, s: int, t: int, target: nat, red: BipartiteReduction, matching: Seq<u64>)
    requires
        g.wf(),
        ipm_admitted(g),
        0 <= s < g.n(),
        0 <= t < g.n(),
        s != t,
        ipm_unit_instance(g),
        !reduction_refused(g, s, t, target),
        reduction_layout(g, s, t, target, red),
        perfect_b_matching(red, matching),
    ensures
        feasible_st_flow(g, encoded_flows(red, matching, g.m()), s, t),
        flow_value(g, encoded_flows(red, matching, g.m()), s) == target,
{
    assert(layout_holds(g, s, t, target, red)) by {
        reveal(layout_holds);
    }
    assert(matched(red, matching)) by {
        reveal(matched);
    }
    let n = g.n() as int;
    let m = g.m() as int;
    let r = relevant_before(g, s, t, m) as int;
    let last = r + n - 2;
    let len = red.edges@.len() as int;
    let f = encoded_flows(red, matching, g.m());
    let edges = g.edge_seq();
    lemma_layout_sizes(g, s, t, target, red);
    lemma_node_edges(g, s, t, target, red, r);
    assert forall|k: int| 0 <= k < m implies edges[k].lower <= #[trigger] f[k] <= edges[k].capacity by {
        assert(edges[k].lower == 0 && edges[k].capacity == 1);
        if relevant_edge(g, s, t, k) {
            lemma_edge_triple(g, s, t, target, red, k);
            lemma_unit_vertices(g, s, t, target, red, matching, k);
        } else {
            lemma_irrelevant_none(g, s, t, target, red, k);
        }
    }
    assert forall|v: int| 0 <= v < n && v != s && v != t implies #[trigger] divergence(g, f, v) == 0 by {
        lemma_rank_range(n, s, t, v);
        let j = r + free_rank(s, t, v);
        assert forall|k2: int| 0 <= k2 < m && #[trigger] relevant_edge(g, s, t, k2)
            implies (red.edges@[3 * (relevant_before(g, s, t, k2) as int) + 2].p == j <==> edges[k2].to@ == v) by {
            lemma_edge_triple(g, s, t, target, red, k2);
            let w = edges[k2].to@ as int;
            if w != t && free_rank(s, t, w) == free_rank(s, t, v) {
                lemma_free_rank_injective(n, s, t, w, v);
            }
        }
        assert forall|k2: int| 0 <= k2 < m && #[trigger] relevant_edge(g, s, t, k2)
            implies (red.edges@[3 * (relevant_before(g, s, t, k2) as int) + 1].q == j <==> edges[k2].from@ == v) by {
            lemma_edge_triple(g, s, t, target, red, k2);
            let w = edges[k2].from@ as int;
            if w != s && free_rank(s, t, w) == free_rank(s, t, v) {
                lemma_free_rank_injective(n, s, t, w, v);
            }
        }
        lemma_node_demands(g, s, t, target, red, v);
        lemma_p_prefix(g, s, t, target, red, matching, v, j, m);
        lemma_q_prefix(g, s, t, target, red, matching, v, j, m);
        lemma_degree_tail(red, matching, j, r, len);
        assert(p_degree(red, matching, j, len) == red.p@[j].demand);
        assert(q_degree(red, matching, j, len) == red.q@[j].demand);
        lemma_divergence_split(edges, f, v, m);
    }
    assert forall|k2: int| 0 <= k2 < m && #[trigger] relevant_edge(g, s, t, k2)
        implies (red.edges@[3 * (relevant_before(g, s, t, k2) as int) + 1].q == last <==> edges[k2].from@ == s) by {
        lemma_edge_triple(g, s, t, target, red, k2);
    }
    lemma_q_prefix(g, s, t, target, red, matching, s, last, m);
    lemma_degree_tail(red, matching, last, r, len);
    assert(q_degree(red, matching, last, len) == red.q@[last].demand);
    lemma_relevant_out_of_at_most(g, s, t, s, m);
    assert(red.q@[last].demand == relevant_out_of(g, s, t, s, m) - target);
    assert(q_degree(red, matching, last, len) == q_degree(red, matching, last, 3 * r));
    assert(outflow(edges, f, s, m) == target);
    lemma_inflow_source(g, s, t, target, red, matching, m);
    lemma_divergence_split(edges, f, s, m);
}

} // verus!
