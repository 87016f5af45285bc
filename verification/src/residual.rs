//! Residual arcs of a flow and the primitive operations on them.
use vstd::prelude::*;

use crate::flows::{ints, within_bounds};
use crate::ids::EdgeId;
use crate::model::{EdgeIndex, FlowEdge, FlowNetwork, NodeIndex};

verus! {

/// Which way a residual arc runs relative to its original edge.
#[derive(Clone, Copy, Debug, PartialEq, Eq, Hash, PartialOrd, Ord)]
pub enum ResidualDirection {
    /// Along the edge; pushing flow increases it.
    Forward,
    /// Against the edge; pushing flow decreases it.
    Reverse,
}

/// Stable identity of a residual arc.
#[derive(Clone, Debug, PartialEq, Eq, Hash, PartialOrd, Ord)]
pub struct ResidualArcId {
    /// Canonical index of the original edge.
    pub edge: EdgeIndex,
    /// Direction relative to the original edge.
    pub direction: ResidualDirection,
    /// Identity of the original edge.
    pub original: EdgeId,
}

impl ResidualArcId {
    /// Identity of the arc over edge `k` of `g` in direction `forward`.
    pub fn new(g: &FlowNetwork, k: usize, forward: bool) -> (r: ResidualArcId)
        requires
            k < g.m(),
        ensures
            r.edge@ == k,
            r.is_forward() == forward,
            r.original@ == g.edge_seq()[k as int].id@,
    {
        proof {
            use_type_invariant(g);
        }
        let edge = EdgeIndex::try_from_usize(k).unwrap();
        ResidualArcId {
            edge,
            direction: if forward { ResidualDirection::Forward } else { ResidualDirection::Reverse },
            original: g.edges()[k].id.duplicate(),
        }
    }

    /// Whether the arc runs along its edge.
    pub open spec fn is_forward(&self) -> bool {
        self.direction == ResidualDirection::Forward
    }

    /// Identity of the original edge.
    pub fn original_edge(&self) -> (r: &EdgeId)
        ensures
            r@ == self.original@,
    {
        &self.original
    }
}

/// Tail of the residual arc over `e`.
pub open spec fn arc_tail(e: FlowEdge, forward: bool) -> int {
    if forward { e.from@ as int } else { e.to@ as int }
}

/// Head of the residual arc over `e`.
pub open spec fn arc_head(e: FlowEdge, forward: bool) -> int {
    if forward { e.to@ as int } else { e.from@ as int }
}

/// Tail of a residual arc, as a node index.
pub fn tail(g: &FlowNetwork, k: usize, forward: bool) -> (r: usize)
    requires
        k < g.m(),
    ensures
        r == arc_tail(g.edge_seq()[k as int], forward),
        r < g.n(),
{
    proof {
        use_type_invariant(g);
    }
    let e = &g.edges()[k];
    if forward { e.from.as_usize() } else { e.to.as_usize() }
}

/// Head of a residual arc, as a node index.
pub fn head(g: &FlowNetwork, k: usize, forward: bool) -> (r: usize)
    requires
        k < g.m(),
    ensures
        r == arc_head(g.edge_seq()[k as int], forward),
        r < g.n(),
{
    proof {
        use_type_invariant(g);
    }
    let e = &g.edges()[k];
    if forward { e.to.as_usize() } else { e.from.as_usize() }
}

/// Number of `true` entries among the first `k`.
pub open spec fn count_true(s: Seq<bool>, k: int) -> int
    decreases k,
{
    if k <= 0 {
        0
    } else {
        count_true(s, k - 1) + if s[k - 1] { 1int } else { 0int }
    }
}

pub proof fn lemma_count_true_bounds(s: Seq<bool>, k: int)
    requires
        0 <= k <= s.len(),
    ensures
        0 <= count_true(s, k) <= k,
    decreases k,
{
    if k > 0 {
        lemma_count_true_bounds(s, k - 1);
    }
}

pub proof fn lemma_count_true_set(s: Seq<bool>, v: int, k: int)
    requires
        0 <= v < s.len(),
        0 <= k <= s.len(),
        !s[v],
    ensures
        count_true(s.update(v, true), k) == count_true(s, k) + if v < k { 1int } else { 0int },
    decreases k,
{
    if k > 0 {
        lemma_count_true_set(s, v, k - 1);
    }
}

/// The node set is closed under positive residual arcs of the flow.
pub open spec fn residually_closed(g: FlowNetwork, f: Seq<int>, side: Seq<bool>) -> bool {
    forall|k: int|
        0 <= k < g.m() ==> {
            let e = #[trigger] g.edge_seq()[k];
            &&& (side[e.from@ as int] && f[k] < e.capacity) ==> side[e.to@ as int]
            &&& (side[e.to@ as int] && f[k] > e.lower) ==> side[e.from@ as int]
        }
}

/// Every node set that holds `s` and is closed under positive residual arcs
/// holds `u`: `u` is reachable from `s` by positive residual arcs.
pub open spec fn forced(g: FlowNetwork, f: Seq<int>, s: int, u: int) -> bool {
    forall|other: Seq<bool>| other.len() == g.n() && #[trigger] residually_closed(g, f, other) && other[s] ==> other[u]
}

/// A positive residual arc from a forced node forces its other end.
proof fn lemma_forced_step(g: FlowNetwork, f: Seq<int>, s: int, a: int, b: int, k: int)
    requires
        forced(g, f, s, a),
        0 <= k < g.m(),
        ({
            let e = g.edge_seq()[k];
            ||| e.from@ == a && e.to@ == b && f[k] < e.capacity
            ||| e.to@ == a && e.from@ == b && f[k] > e.lower
        }),
    ensures
        forced(g, f, s, b),
{
    assert forall|other: Seq<bool>| other.len() == g.n() && #[trigger] residually_closed(g, f, other) && other[s] implies other[b] by {
        let e = g.edge_seq()[k];
        assert(other[a]);
    }
}

/// Smallest node set holding `s` that is closed under positive residual arcs.
pub fn residual_closure(g: &FlowNetwork, flows: &Vec<u64>, s: usize) -> (side: Vec<bool>)
    requires
        s < g.n(),
        within_bounds(*g, ints(flows@)),
    ensures
        side@.len() == g.n(),
        side@[s as int],
        residually_closed(*g, ints(flows@), side@),
        forall|u: int| 0 <= u < g.n() && #[trigger] side@[u] ==> forced(*g, ints(flows@), s as int, u),
        forall|u: int| 0 <= u < g.n() ==> (#[trigger] side@[u] <==> forced(*g, ints(flows@), s as int, u)),
{
    proof {
        use_type_invariant(g);
    }
    let n = g.nodes().len();
    let mut side: Vec<bool> = Vec::new();
    let mut v: usize = 0;
    while v < n
        invariant
            v <= n,
            n == g.n(),
            side@.len() == v,
            forall|u: int| 0 <= u < v ==> !(#[trigger] side@[u]),
        decreases n - v,
    {
        side.push(false);
        v = v + 1;
    }
    proof {
        lemma_count_true_set(side@, s as int, n as int);
        assert forall|u: int| 0 <= u < n implies !(#[trigger] side@[u]) by {}
        lemma_count_zero(side@, n as int);
    }
    side.set(s, true);
    proof {
        assert forall|u: int| 0 <= u < n && #[trigger] side@[u] implies forced(*g, ints(flows@), s as int, u) by {
            assert(u == s);
        }
    }
    let mut count: usize = 1;
    let mut changed = true;
    while changed
        invariant
            n == g.n(),
            g.wf(),
            side@.len() == n,
            s < n,
            side@[s as int],
            count == count_true(side@, n as int),
            count <= n,
            within_bounds(*g, ints(flows@)),
            !changed ==> residually_closed(*g, ints(flows@), side@),
            forall|u: int| 0 <= u < n && #[trigger] side@[u] ==> forced(*g, ints(flows@), s as int, u),
        decreases n - count + if changed { 1int } else { 0int },
    {
        proof {
            lemma_count_true_bounds(side@, n as int);
        }
        let ghost start_count = count;
        changed = false;
        let mut k: usize = 0;
        while k < g.edges().len()
            invariant
                n == g.n(),
                g.wf(),
                k <= g.m(),
                side@.len() == n,
                s < n,
                side@[s as int],
                count == count_true(side@, n as int),
                count >= start_count,
                count <= n,
                changed ==> count > start_count,
                within_bounds(*g, ints(flows@)),
                forall|u: int| 0 <= u < n && #[trigger] side@[u] ==> forced(*g, ints(flows@), s as int, u),
                !changed ==> forall|j: int|
                    0 <= j < k ==> {
                        let e = #[trigger] g.edge_seq()[j];
                        &&& (side@[e.from@ as int] && ints(flows@)[j] < e.capacity) ==> side@[e.to@ as int]
                        &&& (side@[e.to@ as int] && ints(flows@)[j] > e.lower) ==> side@[e.from@ as int]
                    },
            decreases g.m() - k,
        {
            let e = &g.edges()[k];
            let from = e.from.as_usize();
            let to = e.to.as_usize();
            assert(ints(flows@)[k as int] == flows@[k as int]);
            if side[from] && !side[to] && flows[k] < e.capacity {
                proof {
                    lemma_count_true_set(side@, to as int, n as int);
                    lemma_count_true_bounds(side@.update(to as int, true), n as int);
                    assert(g.edge_seq()[k as int] == *e);
                    lemma_forced_step(*g, ints(flows@), s as int, from as int, to as int, k as int);
                }
                side.set(to, true);
                proof {
                    lemma_count_true_bounds(side@, n as int);
                }
                count = count + 1;
                changed = true;
            }
            if side[to] && !side[from] && flows[k] > e.lower {
                proof {
                    lemma_count_true_set(side@, from as int, n as int);
                    lemma_count_true_bounds(side@.update(from as int, true), n as int);
                    assert(g.edge_seq()[k as int] == *e);
                    lemma_forced_step(*g, ints(flows@), s as int, to as int, from as int, k as int);
                }
                side.set(from, true);
                proof {
                    lemma_count_true_bounds(side@, n as int);
                }
                count = count + 1;
                changed = true;
            }
            k = k + 1;
        }
        proof {
            lemma_count_true_bounds(side@, n as int);
        }
    }
    proof {
        assert forall|u: int| 0 <= u < g.n() implies (#[trigger] side@[u] <==> forced(*g, ints(flows@), s as int, u)) by {
            if forced(*g, ints(flows@), s as int, u) {
                assert(side@.len() == g.n() && residually_closed(*g, ints(flows@), side@) && side@[s as int]);
            }
        }
    }
    side
}

pub proof fn lemma_count_zero(s: Seq<bool>, k: int)
    requires
        0 <= k <= s.len(),
        forall|u: int| 0 <= u < k ==> !(#[trigger] s[u]),
    ensures
        count_true(s, k) == 0,
    decreases k,
{
    if k > 0 {
        lemma_count_zero(s, k - 1);
    }
}

} // verus!
