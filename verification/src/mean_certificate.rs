//! Certificates for the least mean cost of a residual cycle: a residual
//! cycle that attains a mean, and node potentials under which every
//! positive residual arc, its cost shifted by that mean, has nonnegative
//! reduced cost, so that no residual cycle has a smaller mean.
use vstd::prelude::*;

use crate::augmenting::distinct_edges;
use crate::flows::{
    contribution, cost_prefix, div_prefix, divergence, feasible_flow, flow_cost, ints, is_min_cost_flow, within_bounds,
};
use crate::model::FlowNetwork;
use crate::residual::{arc_head, arc_tail};

verus! {

/// Residual room of arc `a` (edge `a.0`, forward when `a.1`) under flows `f`.
pub open spec fn room(g: FlowNetwork, f: Seq<u64>, a: (usize, bool)) -> int {
    let e = g.edge_seq()[a.0 as int];
    if a.1 { e.capacity - f[a.0 as int] } else { f[a.0 as int] - e.lower }
}

/// Cost of one unit along arc `a`.
pub open spec fn unit_cost(g: FlowNetwork, a: (usize, bool)) -> int {
    let e = g.edge_seq()[a.0 as int];
    if a.1 { e.cost as int } else { -(e.cost as int) }
}

/// Tail of arc `a`.
pub open spec fn tail_of(g: FlowNetwork, a: (usize, bool)) -> int {
    arc_tail(g.edge_seq()[a.0 as int], a.1)
}

/// Head of arc `a`.
pub open spec fn head_of(g: FlowNetwork, a: (usize, bool)) -> int {
    arc_head(g.edge_seq()[a.0 as int], a.1)
}

/// Arc `i` of `c` ends where arc `i + 1` starts.
pub open spec fn links(g: FlowNetwork, c: Seq<(usize, bool)>, i: int) -> bool {
    head_of(g, c[i]) == tail_of(g, c[i + 1])
}

/// `c` is a closed walk of arcs with positive residual room under `f`.
pub open spec fn residual_cycle(g: FlowNetwork, f: Seq<u64>, c: Seq<(usize, bool)>) -> bool {
    &&& c.len() > 0
    &&& forall|i: int| 0 <= i < c.len() ==> (#[trigger] c[i]).0 < g.m() && room(g, f, c[i]) > 0
    &&& forall|i: int| 0 <= i < c.len() - 1 ==> #[trigger] links(g, c, i)
    &&& head_of(g, c[c.len() - 1]) == tail_of(g, c[0])
}

/// Cost of the first `k` arcs of `c`.
pub open spec fn walk_cost(g: FlowNetwork, c: Seq<(usize, bool)>, k: int) -> int
    decreases k,
{
    if k <= 0 { 0 } else { walk_cost(g, c, k - 1) + unit_cost(g, c[k - 1]) }
}

/// Every residual cycle `c` has mean cost at least `num / den`.
pub open spec fn mean_bounds_every_cycle(g: FlowNetwork, f: Seq<u64>, num: int, den: int) -> bool {
    forall|c: Seq<(usize, bool)>| #[trigger] residual_cycle(g, f, c) ==> num * c.len() <= den * walk_cost(g, c, c.len() as int)
}

/// Potentials `p` give every arc with positive room a nonnegative reduced
/// cost once its cost is scaled by `den` and shifted by `num`.
pub open spec fn shifted_potentials(g: FlowNetwork, f: Seq<u64>, p: Seq<i128>, num: int, den: int) -> bool {
    &&& p.len() == g.n()
    &&& forall|k: int, forward: bool| 0 <= k < g.m() && room(g, f, (k as usize, forward)) > 0
        ==> #[trigger] p[head_of(g, (k as usize, forward))] <= p[tail_of(g, (k as usize, forward))] + unit_cost(g, (k as usize, forward)) * den - num
}

proof fn lemma_walk_telescopes(g: FlowNetwork, f: Seq<u64>, p: Seq<i128>, num: int, den: int, c: Seq<(usize, bool)>, k: int)
    requires
        g.wf(),
        shifted_potentials(g, f, p, num, den),
        residual_cycle(g, f, c),
        1 <= k <= c.len(),
    ensures
        den * walk_cost(g, c, k) - num * k >= p[head_of(g, c[k - 1])] - p[tail_of(g, c[0])],
    decreases k,
{
    let a = c[k - 1];
    assert(a.0 < g.m() && room(g, f, a) > 0);
    let kk = a.0 as int;
    assert((kk as usize, a.1) == a);
    assert(room(g, f, (kk as usize, a.1)) > 0);
    assert(p[head_of(g, (kk as usize, a.1))] <= p[tail_of(g, (kk as usize, a.1))] + unit_cost(g, (kk as usize, a.1)) * den - num);
    assert(p[head_of(g, a)] <= p[tail_of(g, a)] + unit_cost(g, a) * den - num);
    assert(den * walk_cost(g, c, k) == den * walk_cost(g, c, k - 1) + unit_cost(g, a) * den) by (nonlinear_arith)
        requires
            walk_cost(g, c, k) == walk_cost(g, c, k - 1) + unit_cost(g, a),
    ;
    assert(num * k == num * (k - 1) + num) by (nonlinear_arith);
    let step = unit_cost(g, a) * den - num;
    assert(step >= p[head_of(g, a)] - p[tail_of(g, a)]);
    assert(den * walk_cost(g, c, k) - num * k == (den * walk_cost(g, c, k - 1) - num * (k - 1)) + step);
    if k > 1 {
        lemma_walk_telescopes(g, f, p, num, den, c, k - 1);
        assert(links(g, c, k - 2));
        assert(head_of(g, c[k - 2]) == tail_of(g, a));
    } else {
        assert(walk_cost(g, c, 0) == 0);
        assert(den * walk_cost(g, c, 0) - num * 0 == 0) by (nonlinear_arith)
            requires
                walk_cost(g, c, 0) == 0,
        ;
    }
}

/// Potentials for the shifted costs bound the mean of every residual cycle.
pub proof fn lemma_potentials_bound_cycle_means(g: FlowNetwork, f: Seq<u64>, p: Seq<i128>, num: int, den: int)
    requires
        g.wf(),
        shifted_potentials(g, f, p, num, den),
    ensures
        mean_bounds_every_cycle(g, f, num, den),
{
    assert forall|c: Seq<(usize, bool)>| #[trigger] residual_cycle(g, f, c) implies num * c.len() <= den * walk_cost(g, c, c.len() as int) by {
        lemma_walk_telescopes(g, f, p, num, den, c, c.len() as int);
    }
}

/// Arcs among the first `j` of `c` that leave `v`, minus those that enter it.
pub open spec fn cycle_balance(g: FlowNetwork, c: Seq<(usize, bool)>, v: int, j: int) -> int
    decreases j,
{
    if j <= 0 {
        0
    } else {
        cycle_balance(g, c, v, j - 1) + (if tail_of(g, c[j - 1]) == v { 1int } else { 0 })
            - (if head_of(g, c[j - 1]) == v { 1int } else { 0 })
    }
}

/// Net change of edge `k` after one unit is pushed along the first `j` arcs of `c`.
pub open spec fn cycle_delta(c: Seq<(usize, bool)>, k: int, j: int) -> int
    decreases j,
{
    if j <= 0 {
        0
    } else {
        cycle_delta(c, k, j - 1) + (if c[j - 1].0 as int == k { if c[j - 1].1 { 1int } else { -1int } } else { 0 })
    }
}

/// The flows `f` after one unit is pushed along each of the first `j` arcs of `c`.
pub open spec fn pushed_along_cycle(f: Seq<int>, c: Seq<(usize, bool)>, j: int) -> Seq<int>
    decreases j,
{
    if j <= 0 {
        f
    } else {
        let h = pushed_along_cycle(f, c, j - 1);
        let a = c[j - 1];
        h.update(a.0 as int, h[a.0 as int] + (if a.1 { 1int } else { -1int }))
    }
}

proof fn lemma_div_update(edges: Seq<crate::model::FlowEdge>, h: Seq<int>, k: int, x: int, v: int, upto: int)
    requires
        0 <= k < h.len(),
        0 <= upto <= h.len(),
    ensures
        div_prefix(edges, h.update(k, x), v, upto)
            == div_prefix(edges, h, v, upto) + (if k < upto { contribution(edges[k], x - h[k], v) } else { 0 }),
    decreases upto,
{
    if upto > 0 {
        lemma_div_update(edges, h, k, x, v, upto - 1);
    }
}

proof fn lemma_cost_update(edges: Seq<crate::model::FlowEdge>, h: Seq<int>, k: int, x: int, upto: int)
    requires
        0 <= k < h.len(),
        0 <= upto <= h.len(),
    ensures
        cost_prefix(edges, h.update(k, x), upto)
            == cost_prefix(edges, h, upto) + (if k < upto { edges[k].cost * (x - h[k]) } else { 0 }),
    decreases upto,
{
    if upto > 0 {
        lemma_cost_update(edges, h, k, x, upto - 1);
        if upto - 1 == k {
            let c = edges[k].cost as int;
            assert(c * x == c * h[k] + c * (x - h[k])) by (nonlinear_arith);
        }
    }
}

proof fn lemma_delta_untouched(c: Seq<(usize, bool)>, k: int, j: int)
    requires
        0 <= j <= c.len(),
        forall|i: int| 0 <= i < j ==> (#[trigger] c[i]).0 as int != k,
    ensures
        cycle_delta(c, k, j) == 0,
    decreases j,
{
    if j > 0 {
        lemma_delta_untouched(c, k, j - 1);
    }
}

proof fn lemma_push_cycle(g: FlowNetwork, f: Seq<u64>, c: Seq<(usize, bool)>, j: int)
    requires
        g.wf(),
        within_bounds(g, ints(f)),
        residual_cycle(g, f, c),
        distinct_edges(c),
        0 <= j <= c.len(),
    ensures
        pushed_along_cycle(ints(f), c, j).len() == g.m(),
        forall|k: int| 0 <= k < g.m() ==> #[trigger] pushed_along_cycle(ints(f), c, j)[k] == ints(f)[k] + cycle_delta(c, k, j),
        within_bounds(g, pushed_along_cycle(ints(f), c, j)),
        forall|v: int| #[trigger] divergence(g, pushed_along_cycle(ints(f), c, j), v) == divergence(g, ints(f), v) + cycle_balance(g, c, v, j),
        flow_cost(g, pushed_along_cycle(ints(f), c, j)) == flow_cost(g, ints(f)) + walk_cost(g, c, j),
    decreases j,
{
    if j > 0 {
        lemma_push_cycle(g, f, c, j - 1);
        let h = pushed_along_cycle(ints(f), c, j - 1);
        let a = c[j - 1];
        let k = a.0 as int;
        let d: int = if a.1 { 1 } else { -1 };
        let x = h[k] + d;
        let h2 = pushed_along_cycle(ints(f), c, j);
        assert(h2 == h.update(k, x));
        assert(a.0 < g.m() && room(g, f, a) > 0);
        assert forall|i: int| 0 <= i < j - 1 implies (#[trigger] c[i]).0 as int != k by {
            assert(c[i].0 != c[j - 1].0);
        }
        lemma_delta_untouched(c, k, j - 1);
        assert(h[k] == ints(f)[k]);
        assert(ints(f)[k] == f[k]);
        assert forall|kk: int| 0 <= kk < g.m() implies #[trigger] h2[kk] == ints(f)[kk] + cycle_delta(c, kk, j) by {
            if kk != k {
                assert(h2[kk] == h[kk]);
            }
        }
        let e = g.edge_seq()[k];
        assert forall|kk: int| 0 <= kk < g.m() implies g.edge_seq()[kk].lower <= #[trigger] h2[kk] <= g.edge_seq()[kk].capacity by {
            if kk != k {
                assert(h2[kk] == h[kk]);
            }
        }
        assert forall|v: int| #[trigger] divergence(g, h2, v) == divergence(g, ints(f), v) + cycle_balance(g, c, v, j) by {
            lemma_div_update(g.edge_seq(), h, k, x, v, g.m() as int);
            assert(divergence(g, h, v) == divergence(g, ints(f), v) + cycle_balance(g, c, v, j - 1));
            assert(contribution(e, d, v) == (if tail_of(g, a) == v { 1int } else { 0 }) - (if head_of(g, a) == v { 1int } else { 0 }));
        }
        lemma_cost_update(g.edge_seq(), h, k, x, g.m() as int);
        assert(e.cost * d == unit_cost(g, a)) by (nonlinear_arith)
            requires
                d == (if a.1 { 1int } else { -1int }),
                unit_cost(g, a) == (if a.1 { e.cost as int } else { -(e.cost as int) }),
        ;
    }
}

proof fn lemma_closed_balance(g: FlowNetwork, f: Seq<u64>, c: Seq<(usize, bool)>, v: int, j: int)
    requires
        residual_cycle(g, f, c),
        1 <= j <= c.len(),
    ensures
        cycle_balance(g, c, v, j) == (if tail_of(g, c[0]) == v { 1int } else { 0 }) - (if head_of(g, c[j - 1]) == v { 1int } else { 0 }),
    decreases j,
{
    if j > 1 {
        lemma_closed_balance(g, f, c, v, j - 1);
        assert(links(g, c, j - 2));
    } else {
        assert(cycle_balance(g, c, v, 0) == 0);
    }
}

/// Pushing one unit around a residual cycle that uses each edge once and
/// costs less than zero keeps every bound and divergence and lowers the
/// cost, so a flow with such a cycle is not of least cost.
pub proof fn lemma_negative_cycle_improves(g: FlowNetwork, f: Seq<u64>, required: Seq<int>, c: Seq<(usize, bool)>)
    requires
        g.wf(),
        residual_cycle(g, f, c),
        distinct_edges(c),
        walk_cost(g, c, c.len() as int) < 0,
    ensures
        !is_min_cost_flow(g, ints(f), required),
{
    if is_min_cost_flow(g, ints(f), required) {
        let len = c.len() as int;
        lemma_push_cycle(g, f, c, len);
        let h = pushed_along_cycle(ints(f), c, len);
        assert forall|v: int| 0 <= v < g.n() implies #[trigger] divergence(g, h, v) == required[v] by {
            lemma_closed_balance(g, f, c, v, len);
            assert(divergence(g, ints(f), v) == required[v]);
        }
        assert(feasible_flow(g, h, required));
        assert(flow_cost(g, ints(f)) <= flow_cost(g, h));
    }
}

/// Every prefix cost of `c` fits an `i128`.
pub open spec fn costs_fit(g: FlowNetwork, c: Seq<(usize, bool)>) -> bool {
    forall|k: int| 0 < k <= c.len() ==> i128::MIN <= #[trigger] walk_cost(g, c, k) <= i128::MAX
}

/// Whether `cycle` is a residual cycle of `flows` whose mean cost is exactly
/// `num / den`, computed without leaving `i128`.
pub fn cycle_has_mean(graph: &FlowNetwork, flows: &[u64], cycle: &Vec<(usize, bool)>, num: i128, den: i128) -> (r: bool)
    requires
        flows@.len() == graph.m(),
        within_bounds(*graph, ints(flows@)),
    ensures
        r ==> residual_cycle(*graph, flows@, cycle@) && walk_cost(*graph, cycle@, cycle@.len() as int) * den == num * cycle@.len(),
        r == (residual_cycle(*graph, flows@, cycle@) && costs_fit(*graph, cycle@)
            && i128::MIN <= walk_cost(*graph, cycle@, cycle@.len() as int) * den <= i128::MAX
            && i128::MIN <= num * cycle@.len() <= i128::MAX
            && walk_cost(*graph, cycle@, cycle@.len() as int) * den == num * cycle@.len()),
{
    proof {
        use_type_invariant(graph);
    }
    let m = graph.edges().len();
    let len = cycle.len();
    if len == 0 {
        return false;
    }
    let mut cost: i128 = 0;
    let mut i: usize = 0;
    while i < len
        invariant
            graph.wf(),
            m == graph.m(),
            flows@.len() == m,
            len == cycle@.len(),
            0 < len,
            i <= len,
            cost == walk_cost(*graph, cycle@, i as int),
            forall|j: int| 0 <= j < i ==> (#[trigger] cycle@[j]).0 < graph.m() && room(*graph, flows@, cycle@[j]) > 0,
            forall|j: int| 0 <= j < i && j < len - 1 ==> #[trigger] links(*graph, cycle@, j),
            i == len ==> head_of(*graph, cycle@[len - 1]) == tail_of(*graph, cycle@[0]),
            forall|k: int| 0 < k <= i ==> i128::MIN <= #[trigger] walk_cost(*graph, cycle@, k) <= i128::MAX,
        decreases len - i,
    {
        let a = cycle[i];
        if a.0 >= m {
            return false;
        }
        let e = &graph.edges()[a.0];
        assert(graph.edge_seq()[a.0 as int] == *e);
        let x = flows[a.0];
        let room_ok = if a.1 { x < e.capacity() } else { x > e.lower() };
        if !room_ok {
            return false;
        }
        let head = if a.1 { e.to().as_usize() } else { e.from().as_usize() };
        if i + 1 < len {
            let b = cycle[i + 1];
            if b.0 >= m {
                return false;
            }
            let f2 = &graph.edges()[b.0];
            assert(graph.edge_seq()[b.0 as int] == *f2);
            let tail = if b.1 { f2.from().as_usize() } else { f2.to().as_usize() };
            if head != tail {
                proof {
                    assert(head_of(*graph, cycle@[i as int]) == head as int);
                    assert(tail_of(*graph, cycle@[i + 1]) == tail as int);
                    assert(!links(*graph, cycle@, i as int));
                }
                return false;
            }
        } else {
            let b = cycle[0];
            if b.0 >= m {
                return false;
            }
            let f2 = &graph.edges()[b.0];
            assert(graph.edge_seq()[b.0 as int] == *f2);
            let tail = if b.1 { f2.from().as_usize() } else { f2.to().as_usize() };
            if head != tail {
                proof {
                    assert(head_of(*graph, cycle@[len - 1]) == head as int);
                    assert(tail_of(*graph, cycle@[0]) == tail as int);
                }
                return false;
            }
        }
        let c = e.cost() as i128;
        let step = if a.1 { cost.checked_add(c) } else { cost.checked_sub(c) };
        proof {
            assert(walk_cost(*graph, cycle@, i + 1) == cost + unit_cost(*graph, cycle@[i as int]));
        }
        cost = match step {
            Some(y) => y,
            None => return false,
        };
        i = i + 1;
    }
    let scaled = match cost.checked_mul(den) {
        Some(x) => x,
        None => return false,
    };
    let target = match num.checked_mul(len as i128) {
        Some(x) => x,
        None => return false,
    };
    scaled == target
}

/// Why no shifted potentials were returned.
#[derive(Clone, Copy, Debug, PartialEq, Eq)]
pub enum ShiftedPotentialsError {
    /// A residual cycle has a mean below `num / den`, so none exist.
    CycleBelowMean,
    /// A shifted cost or potential left `i128`.
    ArithmeticOverflow,
    /// Relaxation did not settle, yet no cycle below the mean was traced.
    CycleInvariant,
}

/// Traces a residual cycle whose mean lies below `num / den`; with one, no
/// shifted potentials exist.
fn refute_shift(graph: &FlowNetwork, flows: &[u64], num: i128, den: i128) -> (r: Result<Vec<i128>, ShiftedPotentialsError>)
    requires
        flows@.len() == graph.m(),
        within_bounds(*graph, ints(flows@)),
    ensures
        r is Err,
        r == Err::<Vec<i128>, ShiftedPotentialsError>(ShiftedPotentialsError::CycleBelowMean)
            ==> forall|p: Seq<i128>| !#[trigger] shifted_potentials(*graph, flows@, p, num as int, den as int),
{
    proof {
        use_type_invariant(graph);
    }
    let cycle = match trace_cycle(graph, flows, num, den) {
        Some(c) => c,
        None => return Err(ShiftedPotentialsError::CycleInvariant),
    };
    if !is_cycle_below_mean(graph, flows, &cycle, num, den) {
        return Err(ShiftedPotentialsError::CycleInvariant);
    }
    proof {
        assert forall|p: Seq<i128>| !#[trigger] shifted_potentials(*graph, flows@, p, num as int, den as int) by {
            if shifted_potentials(*graph, flows@, p, num as int, den as int) {
                lemma_potentials_bound_cycle_means(*graph, flows@, p, num as int, den as int);
                assert(residual_cycle(*graph, flows@, cycle@));
            }
        }
    }
    Err(ShiftedPotentialsError::CycleBelowMean)
}

/// Bellman–Ford potentials for the costs scaled by `den` and shifted by
/// `num` over the arcs with positive room, checked on every such arc.
pub fn shifted_cost_potentials(graph: &FlowNetwork, flows: &[u64], num: i128, den: i128) -> (r: Result<Vec<i128>, ShiftedPotentialsError>)
    requires
        flows@.len() == graph.m(),
        within_bounds(*graph, ints(flows@)),
    ensures
        r matches Ok(p) ==> shifted_potentials(*graph, flows@, p@, num as int, den as int),
        r == Err::<Vec<i128>, ShiftedPotentialsError>(ShiftedPotentialsError::CycleBelowMean)
            ==> forall|p: Seq<i128>| !#[trigger] shifted_potentials(*graph, flows@, p, num as int, den as int),
{
    proof {
        use_type_invariant(graph);
    }
    let n = graph.nodes().len();
    let m = graph.edges().len();
    let mut p: Vec<i128> = Vec::new();
    let mut v: usize = 0;
    while v < n
        invariant
            v <= n,
            p@.len() == v,
        decreases n - v,
    {
        p.push(0);
        v = v + 1;
    }
    let mut round: usize = 0;
    while round < n
        invariant
            graph.wf(),
            n == graph.n(),
            m == graph.m(),
            flows@.len() == m,
            p@.len() == n,
            round <= n,
        decreases n - round,
    {
        let mut k: usize = 0;
        while k < m
            invariant
                graph.wf(),
                n == graph.n(),
                m == graph.m(),
                flows@.len() == m,
                p@.len() == n,
                k <= m,
            decreases m - k,
        {
            let e = &graph.edges()[k];
            assert(graph.edge_seq()[k as int] == *e);
            let from = e.from().as_usize();
            let to = e.to().as_usize();
            let x = flows[k];
            let mut dir: usize = 0;
            while dir < 2
                invariant
                    graph.wf(),
                    n == graph.n(),
                    p@.len() == n,
                    from < n,
                    to < n,
                decreases 2 - dir,
            {
                let forward = dir == 0;
                let c = e.cost() as i128;
                let has_room = if forward { x < e.capacity() } else { x > e.lower() };
                if has_room {
                    let (tail, head, unit) = if forward { (from, to, c) } else { (to, from, -c) };
                    let shifted = match unit.checked_mul(den) {
                        Some(y) => y.checked_sub(num),
                        None => None,
                    };
                    match shifted {
                        Some(w) => match p[tail].checked_add(w) {
                            Some(candidate) => {
                                if candidate < p[head] {
                                    p.set(head, candidate);
                                }
                            },
                            None => return Err(ShiftedPotentialsError::ArithmeticOverflow),
                        },
                        None => return Err(ShiftedPotentialsError::ArithmeticOverflow),
                    }
                }
                dir = dir + 1;
            }
            k = k + 1;
        }
        round = round + 1;
    }
    let mut k: usize = 0;
    while k < m
        invariant
            graph.wf(),
            n == graph.n(),
            m == graph.m(),
            flows@.len() == m,
            within_bounds(*graph, ints(flows@)),
            p@.len() == n,
            k <= m,
            forall|j: int, forward: bool| 0 <= j < k && room(*graph, flows@, (j as usize, forward)) > 0
                ==> #[trigger] p@[head_of(*graph, (j as usize, forward))] <= p@[tail_of(*graph, (j as usize, forward))] + unit_cost(*graph, (j as usize, forward)) * den - num,
        decreases m - k,
    {
        let e = &graph.edges()[k];
        assert(graph.edge_seq()[k as int] == *e);
        let from = e.from().as_usize();
        let to = e.to().as_usize();
        let c = e.cost() as i128;
        let x = flows[k];
        let forward_room = x < e.capacity();
        let backward_room = x > e.lower();
        let forward_w = match c.checked_mul(den) {
            Some(y) => y.checked_sub(num),
            None => None,
        };
        let backward_w = match (-c).checked_mul(den) {
            Some(y) => y.checked_sub(num),
            None => None,
        };
        if forward_room {
            match forward_w {
                Some(w) => {
                    match p[from].checked_add(w) {
                        Some(bound) => {
                            if p[to] > bound {
                                return refute_shift(graph, flows, num, den);
                            }
                        },
                        None => return Err(ShiftedPotentialsError::ArithmeticOverflow),
                    }
                },
                None => return Err(ShiftedPotentialsError::ArithmeticOverflow),
            }
        }
        if backward_room {
            match backward_w {
                Some(w) => match p[to].checked_add(w) {
                    Some(bound) => {
                        if p[from] > bound {
                            return refute_shift(graph, flows, num, den);
                        }
                    },
                    None => return Err(ShiftedPotentialsError::ArithmeticOverflow),
                },
                None => return Err(ShiftedPotentialsError::ArithmeticOverflow),
            }
        }
        proof {
            assert forall|j: int, forward: bool| 0 <= j < k + 1 && room(*graph, flows@, (j as usize, forward)) > 0
                implies #[trigger] p@[head_of(*graph, (j as usize, forward))] <= p@[tail_of(*graph, (j as usize, forward))] + unit_cost(*graph, (j as usize, forward)) * den - num by {
                if j == k {
                    assert((j as usize) as int == j);
                    if forward {
                        assert(forward_room);
                    } else {
                        assert(backward_room);
                    }
                }
            }
        }
        k = k + 1;
    }
    Ok(p)
}

/// Whether `cycle` is a residual cycle of `flows` that uses each edge at
/// most once and costs less than zero.
pub fn is_negative_simple_cycle(graph: &FlowNetwork, flows: &[u64], cycle: &Vec<(usize, bool)>) -> (r: bool)
    requires
        flows@.len() == graph.m(),
        within_bounds(*graph, ints(flows@)),
    ensures
        r ==> residual_cycle(*graph, flows@, cycle@) && distinct_edges(cycle@) && walk_cost(*graph, cycle@, cycle@.len() as int) < 0,
{
    proof {
        use_type_invariant(graph);
    }
    let m = graph.edges().len();
    let len = cycle.len();
    if len == 0 || len > m {
        return false;
    }
    let mut seen: Vec<bool> = vec![false; m];
    let mut cost: i128 = 0;
    let mut i: usize = 0;
    while i < len
        invariant
            graph.wf(),
            m == graph.m(),
            len == cycle@.len(),
            len <= m,
            i <= len,
            seen@.len() == m,
            forall|j: int| 0 <= j < i ==> (#[trigger] cycle@[j]).0 < m && seen@[cycle@[j].0 as int],
            forall|j1: int, j2: int| 0 <= j1 < j2 < i ==> (#[trigger] cycle@[j1]).0 != (#[trigger] cycle@[j2]).0,
            cost == walk_cost(*graph, cycle@, i as int),
        decreases len - i,
    {
        let a = cycle[i];
        if a.0 >= m || seen[a.0] {
            return false;
        }
        seen.set(a.0, true);
        let e = &graph.edges()[a.0];
        assert(graph.edge_seq()[a.0 as int] == *e);
        let c = e.cost() as i128;
        proof {
            assert(walk_cost(*graph, cycle@, i + 1) == cost + unit_cost(*graph, cycle@[i as int]));
        }
        let step = if a.1 { cost.checked_add(c) } else { cost.checked_sub(c) };
        cost = match step {
            Some(y) => y,
            None => return false,
        };
        i = i + 1;
    }
    if cost >= 0 {
        return false;
    }
    let ok = cycle_has_mean(graph, flows, cycle, cost, len as i128);
    proof {
        if ok {
            let w = walk_cost(*graph, cycle@, len as int);
            assert(w == cost) by (nonlinear_arith)
                requires
                    w * (len as int) == cost * (len as int),
                    len > 0,
            ;
        }
    }
    ok
}

/// Looks for a residual cycle of negative cost that uses each edge at most
/// once, tracing one through Bellman–Ford predecessor arcs and checking it
/// before it is returned.
pub fn find_negative_cycle(graph: &FlowNetwork, flows: &[u64]) -> (r: Option<Vec<(usize, bool)>>)
    requires
        flows@.len() == graph.m(),
        within_bounds(*graph, ints(flows@)),
    ensures
        r matches Some(c) ==> residual_cycle(*graph, flows@, c@) && distinct_edges(c@) && walk_cost(*graph, c@, c@.len() as int) < 0,
{
    let cycle = match trace_cycle(graph, flows, 0, 1) {
        Some(c) => c,
        None => return None,
    };
    if is_negative_simple_cycle(graph, flows, &cycle) {
        Some(cycle)
    } else {
        None
    }
}

/// Whether `cycle` is a residual cycle of `flows` whose mean cost lies below
/// `num / den`.
pub fn is_cycle_below_mean(graph: &FlowNetwork, flows: &[u64], cycle: &Vec<(usize, bool)>, num: i128, den: i128) -> (r: bool)
    requires
        flows@.len() == graph.m(),
        within_bounds(*graph, ints(flows@)),
    ensures
        r ==> residual_cycle(*graph, flows@, cycle@) && den * walk_cost(*graph, cycle@, cycle@.len() as int) < num * cycle@.len(),
{
    proof {
        use_type_invariant(graph);
    }
    let m = graph.edges().len();
    let len = cycle.len();
    if len == 0 || len > m {
        return false;
    }
    let mut cost: i128 = 0;
    let mut i: usize = 0;
    while i < len
        invariant
            graph.wf(),
            m == graph.m(),
            len == cycle@.len(),
            i <= len,
            forall|j: int| 0 <= j < i ==> (#[trigger] cycle@[j]).0 < m,
            cost == walk_cost(*graph, cycle@, i as int),
        decreases len - i,
    {
        let a = cycle[i];
        if a.0 >= m {
            return false;
        }
        let e = &graph.edges()[a.0];
        assert(graph.edge_seq()[a.0 as int] == *e);
        let c = e.cost() as i128;
        proof {
            assert(walk_cost(*graph, cycle@, i + 1) == cost + unit_cost(*graph, cycle@[i as int]));
        }
        let step = if a.1 { cost.checked_add(c) } else { cost.checked_sub(c) };
        cost = match step {
            Some(y) => y,
            None => return false,
        };
        i = i + 1;
    }
    let scaled = match den.checked_mul(cost) {
        Some(x) => x,
        None => return false,
    };
    let target = match num.checked_mul(len as i128) {
        Some(x) => x,
        None => return false,
    };
    if scaled >= target {
        return false;
    }
    let ok = cycle_has_mean(graph, flows, cycle, cost, len as i128);
    proof {
        if ok {
            let w = walk_cost(*graph, cycle@, len as int);
            assert(w == cost) by (nonlinear_arith)
                requires
                    w * (len as int) == cost * (len as int),
                    len > 0,
            ;
        }
    }
    ok
}

/// Bellman–Ford over the arcs with room, each costing its cost times `den`
/// minus `num`, from a virtual root joined to every node, recording the arc
/// that last lowered each node; then a walk back along those arcs from a
/// node lowered in the final pass until a node repeats.  The arcs met on the
/// way round are returned in walk order, unchecked.
fn trace_cycle(graph: &FlowNetwork, flows: &[u64], num: i128, den: i128) -> (r: Option<Vec<(usize, bool)>>)
    requires
        flows@.len() == graph.m(),
{
    proof {
        use_type_invariant(graph);
    }
    let n = graph.nodes().len();
    let m = graph.edges().len();
    if n == 0 || n >= usize::MAX - 1 {
        return None;
    }
    let mut p: Vec<i128> = vec![0; n];
    let mut pred: Vec<Option<(usize, bool)>> = vec![None; n];
    let mut last: Option<usize> = None;
    let mut round: usize = 0;
    while round <= n
        invariant
            graph.wf(),
            n == graph.n(),
            m == graph.m(),
            n < usize::MAX - 1,
            flows@.len() == m,
            round <= n + 1,
            p@.len() == n,
            pred@.len() == n,
            forall|u: int| 0 <= u < n ==> ((#[trigger] pred@[u]) matches Some(a) ==> a.0 < m),
            last matches Some(v) ==> v < n,
        decreases n + 1 - round,
    {
        last = None;
        let mut k: usize = 0;
        while k < m
            invariant
                graph.wf(),
                n == graph.n(),
                m == graph.m(),
                flows@.len() == m,
                k <= m,
                p@.len() == n,
                pred@.len() == n,
                forall|u: int| 0 <= u < n ==> ((#[trigger] pred@[u]) matches Some(a) ==> a.0 < m),
                last matches Some(v) ==> v < n,
            decreases m - k,
        {
            let e = &graph.edges()[k];
            assert(graph.edge_seq()[k as int] == *e);
            let from = e.from().as_usize();
            let to = e.to().as_usize();
            let c = e.cost() as i128;
            let forward_w = match c.checked_mul(den) {
                Some(y) => y.checked_sub(num),
                None => None,
            };
            let backward_w = match (-c).checked_mul(den) {
                Some(y) => y.checked_sub(num),
                None => None,
            };
            if flows[k] < e.capacity() {
                let w = match forward_w {
                    Some(w) => w,
                    None => return None,
                };
                let cand = match p[from].checked_add(w) {
                    Some(x) => x,
                    None => return None,
                };
                if cand < p[to] {
                    p.set(to, cand);
                    pred.set(to, Some((k, true)));
                    last = Some(to);
                }
            }
            if flows[k] > e.lower() {
                let w = match backward_w {
                    Some(w) => w,
                    None => return None,
                };
                let cand = match p[to].checked_add(w) {
                    Some(x) => x,
                    None => return None,
                };
                if cand < p[from] {
                    p.set(from, cand);
                    pred.set(from, Some((k, false)));
                    last = Some(from);
                }
            }
            k = k + 1;
        }
        if last.is_none() {
            return None;
        }
        round = round + 1;
    }
    let mut x = match last {
        Some(v) => v,
        None => return None,
    };
    let mut step: usize = 0;
    while step < n
        invariant
            graph.wf(),
            n == graph.n(),
            m == graph.m(),
            pred@.len() == n,
            forall|u: int| 0 <= u < n ==> ((#[trigger] pred@[u]) matches Some(a) ==> a.0 < m),
            x < n,
            step <= n,
        decreases n - step,
    {
        x = match pred[x] {
            Some(a) => tail_node(graph, a),
            None => return None,
        };
        step = step + 1;
    }
    let start = x;
    let mut reversed: Vec<(usize, bool)> = Vec::new();
    let mut cur = x;
    let mut count: usize = 0;
    loop
        invariant
            graph.wf(),
            n == graph.n(),
            m == graph.m(),
            pred@.len() == n,
            forall|u: int| 0 <= u < n ==> ((#[trigger] pred@[u]) matches Some(a) ==> a.0 < m),
            cur < n,
            count <= n,
            n < usize::MAX - 1,
        decreases n - count,
    {
        let a = match pred[cur] {
            Some(a) => a,
            None => return None,
        };
        reversed.push(a);
        cur = tail_node(graph, a);
        if cur == start {
            break;
        }
        if count >= n {
            return None;
        }
        count = count + 1;
    }
    let mut cycle: Vec<(usize, bool)> = Vec::new();
    let mut i = reversed.len();
    while i > 0
        invariant
            i <= reversed@.len(),
        decreases i,
    {
        i = i - 1;
        cycle.push(reversed[i]);
    }
    Some(cycle)
}

/// The node an arc of `graph` leaves.
fn tail_node(graph: &FlowNetwork, a: (usize, bool)) -> (r: usize)
    requires
        graph.wf(),
        a.0 < graph.m(),
    ensures
        r < graph.n(),
{
    let e = &graph.edges()[a.0];
    assert(graph.edge_seq()[a.0 as int] == *e);
    if a.1 { e.from().as_usize() } else { e.to().as_usize() }
}

} // verus!
