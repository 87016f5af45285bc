//! Breadth-first augmenting paths on a plain arc list.
//!
//! This kernel only has to be safe: every flow it produces is rechecked by a
//! certificate before anything is published.
use vstd::prelude::*;

use crate::flows::{contribution, div_prefix, ints};
use crate::model::FlowNetwork;
use crate::residual::{residually_closed, count_true, lemma_count_true_bounds, lemma_count_true_set, lemma_count_zero};

verus! {

/// Failures of the augmenting-path kernel.
#[derive(Clone, Copy, Debug, PartialEq, Eq)]
pub enum KernelError {
    /// A deterministic work ceiling was reached.
    WorkLimit,
    /// A counter left its integer domain.
    MetricOverflow,
    /// A predecessor chain or path contradicted the search.
    PredecessorInvariant,
}

/// Every edge whose flow rose carries a forward arc of `path`, and every edge
/// whose flow fell a backward one.
pub open spec fn pushed_along(before: Seq<u64>, after: Seq<u64>, path: Seq<(usize, bool)>) -> bool {
    &&& after.len() == before.len()
    &&& forall|k: int| 0 <= k < before.len() && after[k] > before[k] ==> exists|i: int| 0 <= i < path.len() && path[i] == (k as usize, true)
    &&& forall|k: int| 0 <= k < before.len() && after[k] < before[k] ==> exists|i: int| 0 <= i < path.len() && path[i] == (k as usize, false)
}

/// No edge occurs twice along `path`, in either direction.
pub open spec fn distinct_edges(path: Seq<(usize, bool)>) -> bool {
    forall|i: int, j: int| 0 <= i < j < path.len() ==> (#[trigger] path[i]).0 != (#[trigger] path[j]).0
}

/// Edges as parallel arrays, with the residual arcs leaving each node.
pub struct ArcNet {
    /// Node count.
    pub n: usize,
    /// Edge tails.
    pub tail: Vec<usize>,
    /// Edge heads.
    pub head: Vec<usize>,
    /// Lower bounds.
    pub lower: Vec<u64>,
    /// Upper bounds.
    pub cap: Vec<u64>,
    /// Costs per unit.
    pub cost: Vec<i64>,
    /// `adj[v]` lists `(edge, forward)` for every residual arc leaving `v`.
    pub adj: Vec<Vec<(usize, bool)>>,
}

/// One residual arc of an [`ArcNet`].
pub type Arc = (usize, bool);

impl ArcNet {
    /// Edge count.
    pub open spec fn m(&self) -> nat {
        self.tail@.len()
    }

    /// Structural well-formedness.
    pub open spec fn wf(&self) -> bool {
        &&& self.head@.len() == self.m()
        &&& self.lower@.len() == self.m()
        &&& self.cap@.len() == self.m()
        &&& self.cost@.len() == self.m()
        &&& self.adj@.len() == self.n
        &&& self.n <= 4_294_967_297
        &&& forall|k: int| 0 <= k < self.m() ==> #[trigger] self.tail@[k] < self.n
        &&& forall|k: int| 0 <= k < self.m() ==> #[trigger] self.head@[k] < self.n
        &&& forall|k: int| 0 <= k < self.m() ==> #[trigger] self.lower@[k] <= self.cap@[k]
        &&& forall|v: int, i: int| 0 <= v < self.n && 0 <= i < self.adj@[v]@.len() ==> {
            let a = #[trigger] self.adj@[v]@[i];
            &&& a.0 < self.m()
            &&& self.arc_tail(a) == v
        }
    }

    /// Tail of a residual arc.
    pub open spec fn arc_tail(&self, a: Arc) -> int {
        if a.1 { self.tail@[a.0 as int] as int } else { self.head@[a.0 as int] as int }
    }

    /// Head of a residual arc.
    pub open spec fn arc_head(&self, a: Arc) -> int {
        if a.1 { self.head@[a.0 as int] as int } else { self.tail@[a.0 as int] as int }
    }

    /// Both residual arcs of edge `k` are listed at their tails.
    pub open spec fn lists_arcs_of(&self, k: int) -> bool {
        &&& exists|x: int| 0 <= x < self.adj@[self.tail@[k] as int]@.len()
            && (#[trigger] self.adj@[self.tail@[k] as int]@[x]).0 as int == k && self.adj@[self.tail@[k] as int]@[x].1
        &&& exists|x: int| 0 <= x < self.adj@[self.head@[k] as int]@.len()
            && (#[trigger] self.adj@[self.head@[k] as int]@[x]).0 as int == k && !self.adj@[self.head@[k] as int]@[x].1
    }

    /// Every edge's two residual arcs are listed at their tails.
    pub open spec fn complete(&self) -> bool {
        forall|k: int| 0 <= k < self.m() ==> #[trigger] self.lists_arcs_of(k)
    }

    /// Flows lie within bounds.
    pub open spec fn bounded(&self, flows: Seq<u64>) -> bool {
        &&& flows.len() == self.m()
        &&& forall|k: int| 0 <= k < self.m() ==> self.lower@[k] <= #[trigger] flows[k] <= self.cap@[k]
    }

    /// An arc list over `n` nodes with no edges yet.
    pub fn empty(n: usize) -> (r: ArcNet)
        requires
            n <= 4_294_967_297,
        ensures
            r.wf(),
            r.complete(),
            r.n == n,
            r.m() == 0,
            forall|v: int| 0 <= v < n ==> #[trigger] r.adj@[v]@.len() == 0,
    {
        let mut adj: Vec<Vec<Arc>> = Vec::new();
        let mut v: usize = 0;
        while v < n
            invariant
                v <= n,
                adj@.len() == v,
                forall|u: int| 0 <= u < v ==> (#[trigger] adj@[u])@.len() == 0,
            decreases n - v,
        {
            adj.push(Vec::new());
            v = v + 1;
        }
        ArcNet { n, tail: Vec::new(), head: Vec::new(), lower: Vec::new(), cap: Vec::new(), cost: Vec::new(), adj }
    }

    /// Appends an edge and its two residual arcs.
    pub fn add_edge(&mut self, from: usize, to: usize, lower: u64, cap: u64, cost: i64)
        requires
            old(self).wf(),
            from < old(self).n,
            to < old(self).n,
            lower <= cap,
        ensures
            final(self).wf(),
            final(self).n == old(self).n,
            final(self).m() == old(self).m() + 1,
            final(self).tail@ == old(self).tail@.push(from),
            final(self).head@ == old(self).head@.push(to),
            final(self).lower@ == old(self).lower@.push(lower),
            final(self).cap@ == old(self).cap@.push(cap),
            final(self).cost@ == old(self).cost@.push(cost),
            old(self).complete() ==> final(self).complete(),
            forall|v: int| 0 <= v < old(self).n ==> #[trigger] final(self).adj@[v]@.len() <= old(self).adj@[v]@.len() + 2,
    {
        let k = self.tail.len();
        self.tail.push(from);
        self.head.push(to);
        self.lower.push(lower);
        self.cap.push(cap);
        self.cost.push(cost);
        let ghost before = self.adj@;
        let mut list: Vec<Arc> = Vec::new();
        std::mem::swap(&mut list, &mut self.adj[from]);
        list.push((k, true));
        self.adj.set(from, list);
        let ghost mid = self.adj@;
        let mut list2: Vec<Arc> = Vec::new();
        std::mem::swap(&mut list2, &mut self.adj[to]);
        list2.push((k, false));
        self.adj.set(to, list2);
        proof {
            assert forall|v: int, i: int| 0 <= v < self.n && 0 <= i < self.adj@[v]@.len() implies {
                let a = #[trigger] self.adj@[v]@[i];
                &&& a.0 < self.m()
                &&& self.arc_tail(a) == v
            } by {
                let a = self.adj@[v]@[i];
                if v == to && i == mid[v]@.len() {
                } else {
                    assert(a == mid[v]@[i]);
                    if v == from && i == before[v]@.len() {
                    } else {
                        assert(a == before[v]@[i]);
                    }
                }
            }
            if old(self).complete() {
                assert forall|k2: int| 0 <= k2 < self.m() implies #[trigger] self.lists_arcs_of(k2) by {
                    if k2 < k {
                        let t = self.tail@[k2] as int;
                        let h = self.head@[k2] as int;
                        assert(self.tail@[k2] == old(self).tail@[k2]);
                        assert(self.head@[k2] == old(self).head@[k2]);
                        assert(old(self).lists_arcs_of(k2));
                        let i = choose|i: int| 0 <= i < before[t]@.len() && (#[trigger] before[t]@[i]).0 as int == k2 && before[t]@[i].1;
                        let j = choose|j: int| 0 <= j < before[h]@.len() && (#[trigger] before[h]@[j]).0 as int == k2 && !before[h]@[j].1;
                        assert(mid[t]@[i] == before[t]@[i]);
                        assert(self.adj@[t]@[i] == mid[t]@[i]);
                        assert(mid[h]@[j] == before[h]@[j]);
                        assert(self.adj@[h]@[j] == mid[h]@[j]);
                    } else {
                        assert(k2 == k);
                        assert(mid[from as int]@[before[from as int]@.len() as int] == (k as usize, true));
                        assert(self.adj@[from as int]@[before[from as int]@.len() as int] == (k as usize, true));
                        assert(self.adj@[to as int]@[mid[to as int]@.len() as int] == (k as usize, false));
                    }
                }
                assert(self.complete());
            }
            assert forall|k2: int| 0 <= k2 < self.m() implies #[trigger] self.tail@[k2] < self.n by {
                if k2 < k {
                    assert(self.tail@[k2] == old(self).tail@[k2]);
                }
            }
            assert forall|k2: int| 0 <= k2 < self.m() implies #[trigger] self.head@[k2] < self.n by {
                if k2 < k {
                    assert(self.head@[k2] == old(self).head@[k2]);
                }
            }
            assert forall|k2: int| 0 <= k2 < self.m() implies #[trigger] self.lower@[k2] <= self.cap@[k2] by {
                if k2 < k {
                    assert(self.lower@[k2] == old(self).lower@[k2]);
                    assert(self.cap@[k2] == old(self).cap@[k2]);
                }
            }
            assert forall|v: int| 0 <= v < old(self).n implies #[trigger] self.adj@[v]@.len() <= before[v]@.len() + 2 by {
                assert(mid[v]@.len() <= before[v]@.len() + 1);
                assert(self.adj@[v]@.len() <= mid[v]@.len() + 1);
            }
        }
    }

    /// The edges of a network, in canonical order.
    pub fn from_network(g: &FlowNetwork) -> (r: ArcNet)
        ensures
            r.wf(),
            r.complete(),
            mirrors(&r, *g),
            r.n == g.n(),
            r.m() == g.m(),
            forall|k: int| 0 <= k < g.m() ==> {
                let e = #[trigger] g.edge_seq()[k];
                &&& r.tail@[k] == e.from@
                &&& r.head@[k] == e.to@
                &&& r.lower@[k] == e.lower
                &&& r.cap@[k] == e.capacity
                &&& r.cost@[k] == e.cost
            },
            max_listed(&r, r.n as int) <= 2 * g.m(),
    {
        proof {
            use_type_invariant(g);
        }
        let mut net = ArcNet::empty(g.nodes().len());
        let mut k: usize = 0;
        while k < g.edges().len()
            invariant
                g.wf(),
                net.wf(),
                net.complete(),
                net.n == g.n(),
                k <= g.m(),
                net.m() == k,
                forall|j: int| 0 <= j < k ==> {
                    let e = #[trigger] g.edge_seq()[j];
                    &&& net.tail@[j] == e.from@
                    &&& net.head@[j] == e.to@
                    &&& net.lower@[j] == e.lower
                    &&& net.cap@[j] == e.capacity
                    &&& net.cost@[j] == e.cost
                },
                forall|v: int| 0 <= v < net.n ==> #[trigger] net.adj@[v]@.len() <= 2 * k,
            decreases g.m() - k,
        {
            let e = &g.edges()[k];
            net.add_edge(e.from.as_usize(), e.to.as_usize(), e.lower, e.capacity, e.cost);
            k = k + 1;
        }
        proof {
            lemma_max_listed_at_most(&net, net.n as int, 2 * g.m() as int);
        }
        net
    }

    /// Residual capacity of an arc.
    pub fn residual(&self, flows: &Vec<u64>, a: Arc) -> (r: u64)
        requires
            self.wf(),
            self.bounded(flows@),
            a.0 < self.m(),
        ensures
            r == if a.1 { self.cap@[a.0 as int] - flows@[a.0 as int] } else { flows@[a.0 as int] - self.lower@[a.0 as int] },
    {
        if a.1 {
            self.cap[a.0] - flows[a.0]
        } else {
            flows[a.0] - self.lower[a.0]
        }
    }

    /// Unit cost along a residual arc: the edge's cost forward, its negation backward.
    pub open spec fn cost_of(&self, a: Arc) -> int {
        if a.1 { self.cost@[a.0 as int] as int } else { -(self.cost@[a.0 as int] as int) }
    }

    /// Cost of a unit along an arc.
    pub fn arc_cost(&self, a: Arc) -> (r: i128)
        requires
            self.wf(),
            a.0 < self.m(),
        ensures
            r == self.cost_of(a),
    {
        let c = self.cost[a.0] as i128;
        if a.1 { c } else { -c }
    }

    /// Tail of an arc.
    pub fn tail_of(&self, a: Arc) -> (r: usize)
        requires
            self.wf(),
            a.0 < self.m(),
        ensures
            r == self.arc_tail(a),
            r < self.n,
    {
        let k = a.0;
        assert(self.tail@[k as int] < self.n && self.head@[k as int] < self.n);
        if a.1 { self.tail[a.0] } else { self.head[a.0] }
    }

    /// Head of an arc.
    pub fn head_of(&self, a: Arc) -> (r: usize)
        requires
            self.wf(),
            a.0 < self.m(),
        ensures
            r == self.arc_head(a),
            r < self.n,
    {
        assert(self.tail@[a.0 as int] < self.n && self.head@[a.0 as int] < self.n);
        if a.1 { self.head[a.0] } else { self.tail[a.0] }
    }

    /// Pushes `amount` along an arc.
    pub fn push(&self, flows: &mut Vec<u64>, a: Arc, amount: u64)
        requires
            self.wf(),
            self.bounded(old(flows)@),
            a.0 < self.m(),
            amount <= if a.1 { self.cap@[a.0 as int] - old(flows)@[a.0 as int] } else { old(flows)@[a.0 as int] - self.lower@[a.0 as int] },
        ensures
            self.bounded(final(flows)@),
            final(flows)@[a.0 as int] == if a.1 { old(flows)@[a.0 as int] + amount } else { old(flows)@[a.0 as int] - amount },
            forall|k: int| 0 <= k < final(flows)@.len() && k != a.0 ==> final(flows)@[k] == old(flows)@[k],
    {
        let x = flows[a.0];
        if a.1 {
            flows.set(a.0, x + amount);
        } else {
            flows.set(a.0, x - amount);
        }
    }

    /// Smallest residual capacity along a path, or `None` for an empty path.
    pub fn bottleneck(&self, flows: &Vec<u64>, path: &Vec<Arc>) -> (r: Option<u64>)
        requires
            self.wf(),
            self.bounded(flows@),
            forall|i: int| 0 <= i < path@.len() ==> (#[trigger] path@[i]).0 < self.m(),
        ensures
            r is None <==> path@.len() == 0,
            r matches Some(b) ==> forall|i: int| 0 <= i < path@.len() ==> b <= room_of(self, flows@, #[trigger] path@[i]),
            r matches Some(b) ==> exists|i: int| 0 <= i < path@.len() && b == room_of(self, flows@, #[trigger] path@[i]),
    {
        if path.len() == 0 {
            return None;
        }
        let mut best = self.residual(flows, path[0]);
        let mut i: usize = 1;
        while i < path.len()
            invariant
                self.wf(),
                self.bounded(flows@),
                forall|j: int| 0 <= j < path@.len() ==> (#[trigger] path@[j]).0 < self.m(),
                1 <= i <= path@.len(),
                forall|j: int| 0 <= j < i ==> best <= room_of(self, flows@, #[trigger] path@[j]),
                exists|j: int| 0 <= j < i && best == room_of(self, flows@, #[trigger] path@[j]),
            decreases path@.len() - i,
        {
            let c = self.residual(flows, path[i]);
            if c < best {
                best = c;
            }
            i = i + 1;
        }
        Some(best)
    }

    /// Pushes `amount` along every arc of a path; fails without changing
    /// anything already pushed past if an arc lacks capacity.
    pub fn augment(&self, flows: &mut Vec<u64>, path: &Vec<Arc>, amount: u64) -> (r: Result<(), KernelError>)
        requires
            self.wf(),
            self.bounded(old(flows)@),
            forall|i: int| 0 <= i < path@.len() ==> (#[trigger] path@[i]).0 < self.m(),
        ensures
            self.bounded(final(flows)@),
            pushed_along(old(flows)@, final(flows)@, path@),
            r is Ok ==> forall|v: int| #[trigger] net_div(self, final(flows)@, v, self.m() as int)
                == net_div(self, old(flows)@, v, self.m() as int) + amount * walk_balance(self, path@, v, path@.len() as int),
            distinct_edges(path@) && (forall|i: int| 0 <= i < path@.len() ==> amount <= room_of(self, old(flows)@, #[trigger] path@[i])) ==> r is Ok,
            r is Ok ==> net_cost(self, final(flows)@, self.m() as int)
                == net_cost(self, old(flows)@, self.m() as int) + amount * path_cost(self, path@, path@.len() as int),
    {
        let ghost fits = distinct_edges(path@) && (forall|i: int| 0 <= i < path@.len() ==> amount <= room_of(self, old(flows)@, #[trigger] path@[i]));
        let mut i: usize = 0;
        while i < path.len()
            invariant
                self.wf(),
                self.bounded(flows@),
                self.bounded(old(flows)@),
                forall|j: int| 0 <= j < path@.len() ==> (#[trigger] path@[j]).0 < self.m(),
                i <= path@.len(),
                fits == (distinct_edges(path@) && (forall|i: int| 0 <= i < path@.len() ==> amount <= room_of(self, old(flows)@, #[trigger] path@[i]))),
                fits ==> forall|j: int| i <= j < path@.len() ==> flows@[(#[trigger] path@[j]).0 as int] == old(flows)@[path@[j].0 as int],
                pushed_along(old(flows)@, flows@, path@),
                forall|v: int| #[trigger] net_div(self, flows@, v, self.m() as int)
                    == net_div(self, old(flows)@, v, self.m() as int) + amount * walk_balance(self, path@, v, i as int),
                net_cost(self, flows@, self.m() as int) == net_cost(self, old(flows)@, self.m() as int) + amount * path_cost(self, path@, i as int),
            decreases path@.len() - i,
        {
            let a = path[i];
            proof {
                if fits {
                    assert(flows@[a.0 as int] == old(flows)@[a.0 as int]);
                    assert(amount <= room_of(self, old(flows)@, path@[i as int]));
                }
            }
            if self.residual(flows, a) < amount {
                return Err(KernelError::PredecessorInvariant);
            }
            let ghost mid = flows@;
            self.push(flows, a, amount);
            proof {
                let j = a.0 as int;
                assert(flows@ =~= mid.update(j, flows@[j]));
                lemma_net_cost_update(self, mid, j, flows@[j], self.m() as int);
                let c = self.cost@[j] as int;
                assert(c * (flows@[j] - mid[j]) == amount * self.cost_of(a)) by (nonlinear_arith)
                    requires
                        flows@[j] - mid[j] == (if a.1 { amount as int } else { -(amount as int) }),
                        self.cost_of(a) == (if a.1 { c } else { -c }),
                ;
                assert(amount * path_cost(self, path@, i + 1) == amount * path_cost(self, path@, i as int) + amount * self.cost_of(a)) by (nonlinear_arith)
                    requires
                        path_cost(self, path@, i + 1) == path_cost(self, path@, i as int) + self.cost_of(a),
                ;
                if fits {
                    assert forall|jj: int| i + 1 <= jj < path@.len() implies flows@[(#[trigger] path@[jj]).0 as int] == old(flows)@[path@[jj].0 as int] by {
                        assert(path@[i as int].0 != path@[jj].0);
                    }
                }
                assert forall|v: int| #[trigger] net_div(self, flows@, v, self.m() as int)
                    == net_div(self, old(flows)@, v, self.m() as int) + amount * walk_balance(self, path@, v, i + 1) by {
                    lemma_net_div_update(self, mid, j, flows@[j], v, self.m() as int);
                    let d = (if self.arc_tail(a) == v { 1int } else { 0 }) - (if self.arc_head(a) == v { 1int } else { 0 });
                    assert(walk_balance(self, path@, v, i + 1) == walk_balance(self, path@, v, i as int) + d);
                    assert(amount * walk_balance(self, path@, v, i + 1) == amount * walk_balance(self, path@, v, i as int) + amount * d) by (nonlinear_arith)
                        requires
                            walk_balance(self, path@, v, i + 1) == walk_balance(self, path@, v, i as int) + d,
                    ;
                    if a.1 {
                        assert(flows@[j] == mid[j] + amount);
                    } else {
                        assert(flows@[j] == mid[j] - amount);
                    }
                    assert(-1 <= d <= 1);
                    if d == 1 {
                        assert(amount * d == amount) by (nonlinear_arith)
                            requires
                                d == 1,
                        ;
                    } else if d == -1 {
                        assert(amount * d == -amount) by (nonlinear_arith)
                            requires
                                d == -1,
                        ;
                    } else {
                        assert(amount * d == 0) by (nonlinear_arith)
                            requires
                                d == 0,
                        ;
                    }
                }
                assert forall|k: int| 0 <= k < old(flows)@.len() && flows@[k] > old(flows)@[k] implies
                    exists|j: int| 0 <= j < path@.len() && path@[j] == (k as usize, true) by {
                    if k == a.0 && a.1 && flows@[k] > mid[k] {
                        assert(path@[i as int] == (k as usize, true));
                    } else {
                        assert(flows@[k] <= mid[k]);
                    }
                }
                assert forall|k: int| 0 <= k < old(flows)@.len() && flows@[k] < old(flows)@[k] implies
                    exists|j: int| 0 <= j < path@.len() && path@[j] == (k as usize, false) by {
                    if k == a.0 && !a.1 && flows@[k] < mid[k] {
                        assert(path@[i as int] == (k as usize, false));
                    } else {
                        assert(flows@[k] >= mid[k]);
                    }
                }
            }
            i = i + 1;
        }
        Ok(())
    }
}

/// Total cost of flows `f` over the first `k` edges.
pub open spec fn net_cost(net: &ArcNet, f: Seq<u64>, k: int) -> int
    decreases k,
{
    if k <= 0 { 0 } else { net_cost(net, f, k - 1) + net.cost@[k - 1] * f[k - 1] }
}

/// Cost of one unit along the first `i` arcs of `p`.
pub open spec fn path_cost(net: &ArcNet, p: Seq<Arc>, i: int) -> int
    decreases i,
{
    if i <= 0 { 0 } else { path_cost(net, p, i - 1) + net.cost_of(p[i - 1]) }
}

proof fn lemma_net_cost_update(net: &ArcNet, f: Seq<u64>, j: int, x: u64, k: int)
    requires
        0 <= j < f.len(),
        0 <= k <= f.len(),
    ensures
        net_cost(net, f.update(j, x), k) == net_cost(net, f, k) + (if j < k { net.cost@[j] * (x - f[j]) } else { 0 }),
    decreases k,
{
    if k > 0 {
        lemma_net_cost_update(net, f, j, x, k - 1);
        if k - 1 == j {
            let c = net.cost@[j] as int;
            assert(c * x == c * f[j] + c * (x - f[j])) by (nonlinear_arith);
        }
    }
}

/// Largest number of arcs listed at any one of the first `k` nodes.
pub open spec fn max_listed(net: &ArcNet, k: int) -> int
    decreases k,
{
    if k <= 0 {
        0
    } else {
        let a = net.adj@[k - 1]@.len() as int;
        let b = max_listed(net, k - 1);
        if a > b { a } else { b }
    }
}

pub(crate) proof fn lemma_max_listed_bounds(net: &ArcNet, k: int, v: int)
    requires
        0 <= v < k,
    ensures
        net.adj@[v]@.len() <= max_listed(net, k),
        max_listed(net, k) >= 0,
    decreases k,
{
    if v < k - 1 {
        lemma_max_listed_bounds(net, k - 1, v);
    } else if k > 1 {
        lemma_max_listed_bounds(net, k - 1, 0);
    }
}

pub(crate) proof fn lemma_max_listed_at_most(net: &ArcNet, k: int, d: int)
    requires
        0 <= d,
        forall|v: int| 0 <= v < k ==> #[trigger] net.adj@[v]@.len() <= d,
    ensures
        max_listed(net, k) <= d,
    decreases k,
{
    if k > 0 {
        lemma_max_listed_at_most(net, k - 1, d);
    }
}

/// What a breadth-first search found.
pub struct Search {
    /// Arcs from source to sink, when the sink was reached.
    pub path: Option<Vec<Arc>>,
    /// BFS distance of every discovered node.
    pub distances: Vec<Option<i128>>,
    /// Nodes in discovery order.
    pub order: Vec<usize>,
}

/// One inspected residual arc, with the search state right after it.
pub struct ScanStep {
    /// The arc.
    pub arc: Arc,
    /// Whether its head was discovered by it.
    pub discovered: bool,
    /// Distances after the inspection.
    pub distances: Vec<Option<i128>>,
    /// Discovery order after the inspection.
    pub order: Vec<usize>,
    /// Scan counter after the inspection.
    pub scans: u128,
}

/// Net outflow of node `v` under `f`, over the first `k` edges.
pub open spec fn net_div(net: &ArcNet, f: Seq<u64>, v: int, k: int) -> int
    decreases k,
{
    if k <= 0 {
        0
    } else {
        net_div(net, f, v, k - 1) + (if net.tail@[k - 1] == v { f[k - 1] as int } else { 0 })
            - (if net.head@[k - 1] == v { f[k - 1] as int } else { 0 })
    }
}

/// Arcs among the first `i` of `p` that leave `v`, minus those that enter it.
pub open spec fn walk_balance(net: &ArcNet, p: Seq<Arc>, v: int, i: int) -> int
    decreases i,
{
    if i <= 0 {
        0
    } else {
        walk_balance(net, p, v, i - 1) + (if net.arc_tail(p[i - 1]) == v { 1int } else { 0 })
            - (if net.arc_head(p[i - 1]) == v { 1int } else { 0 })
    }
}

/// Changing the flow of edge `j` to `x` changes the net outflow of its
/// tail by the difference, and of its head by minus the difference.
proof fn lemma_net_div_update(net: &ArcNet, f: Seq<u64>, j: int, x: u64, v: int, k: int)
    requires
        0 <= j < f.len(),
        0 <= k <= f.len(),
        f.len() == net.m(),
    ensures
        net_div(net, f.update(j, x), v, k) == net_div(net, f, v, k)
            + (if j < k && net.tail@[j] == v { x - f[j] } else { 0 })
            - (if j < k && net.head@[j] == v { x - f[j] } else { 0 }),
    decreases k,
{
    if k > 0 {
        lemma_net_div_update(net, f, j, x, v, k - 1);
    }
}

/// Along a walk from `s`, every node but the walk's ends is left as often as
/// it is entered.
pub(crate) proof fn lemma_walk_balance(net: &ArcNet, p: Seq<Arc>, s: int, v: int, i: int)
    requires
        p.len() > 0,
        net.arc_tail(p[0]) == s,
        forall|j: int| 0 <= j < p.len() - 1 ==> #[trigger] net.arc_head(p[j]) == net.arc_tail(p[j + 1]),
        1 <= i <= p.len(),
    ensures
        walk_balance(net, p, v, i) == (if v == s { 1int } else { 0 }) - (if v == net.arc_head(p[i - 1]) { 1int } else { 0 }),
    decreases i,
{
    if i > 1 {
        lemma_walk_balance(net, p, s, v, i - 1);
        assert(net.arc_head(p[i - 2]) == net.arc_tail(p[i - 1]));
    } else {
        assert(walk_balance(net, p, v, 0) == 0);
    }
}

/// The arc list mirrors `g` edge for edge.
pub open spec fn mirrors(net: &ArcNet, g: FlowNetwork) -> bool {
    &&& net.n == g.n()
    &&& net.m() == g.m()
    &&& forall|k: int| 0 <= k < g.m() ==> {
        let e = #[trigger] g.edge_seq()[k];
        &&& net.tail@[k] == e.from@
        &&& net.head@[k] == e.to@
        &&& net.lower@[k] == e.lower
        &&& net.cap@[k] == e.capacity
        &&& net.cost@[k] == e.cost
    }
}

/// On a mirror of `g`, net outflow is the divergence of `g`.
pub(crate) proof fn lemma_net_div_is_divergence(net: &ArcNet, g: FlowNetwork, f: Seq<u64>, v: int, k: int)
    requires
        mirrors(net, g),
        f.len() == g.m(),
        0 <= k <= g.m(),
    ensures
        net_div(net, f, v, k) == div_prefix(g.edge_seq(), ints(f), v, k),
    decreases k,
{
    if k > 0 {
        lemma_net_div_is_divergence(net, g, f, v, k - 1);
        let e = g.edge_seq()[k - 1];
        assert(ints(f)[k - 1] == f[k - 1]);
        assert(contribution(e, ints(f)[k - 1], v) == (if e.from@ == v { ints(f)[k - 1] } else { 0 }) - (if e.to@ == v { ints(f)[k - 1] } else { 0 }));
    }
}

/// On a mirror of `g`, a node set closed under the arcs with room is
/// residually closed in `g`.
pub(crate) proof fn lemma_side_closed_is_residually_closed(net: &ArcNet, g: FlowNetwork, f: Seq<u64>, side: Seq<bool>)
    requires
        mirrors(net, g),
        f.len() == g.m(),
        side_closed(net, f, side),
    ensures
        residually_closed(g, ints(f), side),
{
    assert forall|k: int| 0 <= k < g.m() implies {
        let e = #[trigger] g.edge_seq()[k];
        &&& (side[e.from@ as int] && ints(f)[k] < e.capacity) ==> side[e.to@ as int]
        &&& (side[e.to@ as int] && ints(f)[k] > e.lower) ==> side[e.from@ as int]
    } by {
        assert(edge_closed(net, f, side, k));
        assert(ints(f)[k] == f[k]);
    }
}

/// `p` is a nonempty walk of arcs from `s` to `t`.
pub open spec fn is_walk(net: &ArcNet, p: Seq<Arc>, s: int, t: int) -> bool {
    &&& p.len() > 0
    &&& net.arc_tail(p[0]) == s
    &&& net.arc_head(p[p.len() - 1]) == t
    &&& forall|i: int| 0 <= i < p.len() - 1 ==> #[trigger] net.arc_head(p[i]) == net.arc_tail(p[i + 1])
}

/// Residual room of arc `a` under `flows`.
pub open spec fn room_of(net: &ArcNet, flows: Seq<u64>, a: Arc) -> int {
    if a.1 { net.cap@[a.0 as int] - flows[a.0 as int] } else { flows[a.0 as int] - net.lower@[a.0 as int] }
}

/// Arc `k` of `path` has the least room, and every earlier arc has more.
pub open spec fn first_least_room(net: &ArcNet, flows: Seq<u64>, path: Seq<Arc>, k: int) -> bool {
    &&& 0 <= k < path.len()
    &&& forall|j: int| 0 <= j < path.len() ==> room_of(net, flows, path[k]) <= room_of(net, flows, #[trigger] path[j])
    &&& forall|j: int| 0 <= j < k ==> room_of(net, flows, path[k]) < room_of(net, flows, #[trigger] path[j])
}

/// Edge `k` does not leave `side` through a residual arc with room.
pub open spec fn edge_closed(net: &ArcNet, flows: Seq<u64>, side: Seq<bool>, k: int) -> bool {
    &&& (side[net.tail@[k] as int] && flows[k] < net.cap@[k]) ==> side[net.head@[k] as int]
    &&& (side[net.head@[k] as int] && flows[k] > net.lower@[k]) ==> side[net.tail@[k] as int]
}

/// No residual arc with room leaves `side`.
pub open spec fn side_closed(net: &ArcNet, flows: Seq<u64>, side: Seq<bool>) -> bool {
    forall|k: int| 0 <= k < net.m() ==> #[trigger] edge_closed(net, flows, side, k)
}

/// The node discovered `j`-th has a predecessor arc with room that enters it
/// from a node discovered earlier.
spec fn pred_ok(net: &ArcNet, flows: Seq<u64>, pred: Seq<Option<Arc>>, order: Seq<usize>, j: int) -> bool {
    let a = pred[order[j] as int]->0;
    &&& pred[order[j] as int] is Some
    &&& a.0 < net.m()
    &&& net.arc_head(a) == order[j]
    &&& room_of(net, flows, a) > 0
    &&& exists|i: int| 0 <= i < j && order[i] as int == net.arc_tail(a)
}

/// The discovery order: distinct nodes, starting at `s`, each after the first
/// reached through its predecessor arc.
spec fn discovery_ok(net: &ArcNet, flows: Seq<u64>, pred: Seq<Option<Arc>>, order: Seq<usize>, s: int) -> bool {
    &&& order.len() > 0
    &&& order[0] == s
    &&& forall|i: int, j: int| 0 <= i < j < order.len() ==> order[i] != order[j]
    &&& forall|j: int| 1 <= j < order.len() ==> #[trigger] pred_ok(net, flows, pred, order, j)
}

/// Every arc with room among the first `upto` listed at `v` ends in `side`,
/// at a node whose recorded distance is at most one more than that of `v`.
spec fn arcs_closed_at(net: &ArcNet, flows: Seq<u64>, side: Seq<bool>, dist: Seq<Option<i128>>, v: int, upto: int) -> bool {
    forall|x: int| 0 <= x < upto && room_of(net, flows, #[trigger] net.adj@[v]@[x]) > 0
        ==> side[net.arc_head(net.adj@[v]@[x])] && dist_at(dist, net.arc_head(net.adj@[v]@[x])) <= dist_at(dist, v) + 1
}

/// Exactly the nodes of `order` among the first `n` have a recorded distance.
pub open spec fn marks_discovered(dist: Seq<Option<i128>>, order: Seq<usize>, n: int) -> bool {
    forall|v: int| 0 <= v < n ==> ((#[trigger] dist[v]) is Some <==> exists|j: int| 0 <= j < order.len() && order[j] == v)
}

proof fn lemma_marks_discovered(visited: Seq<bool>, dist: Seq<Option<i128>>, order: Seq<usize>, n: int)
    requires
        level_ok(dist, order),
        forall|u: int| 0 <= u < n && #[trigger] visited[u] ==> exists|j: int| 0 <= j < order.len() && order[j] == u,
        forall|u: int| 0 <= u < n ==> ((#[trigger] dist[u]) is Some ==> visited[u]),
    ensures
        marks_discovered(dist, order, n),
{
    assert forall|v: int| 0 <= v < n implies ((#[trigger] dist[v]) is Some
        <==> exists|j: int| 0 <= j < order.len() && order[j] == v) by {
        if exists|j: int| 0 <= j < order.len() && order[j] == v {
            let j = choose|j: int| 0 <= j < order.len() && order[j] == v;
            assert(dist[order[j] as int] is Some);
        }
        if dist[v] is Some {
            assert(visited[v]);
        }
    }
}

/// Distance recorded for node `v`.
pub open spec fn dist_at(dist: Seq<Option<i128>>, v: int) -> int {
    dist[v]->0 as int
}

/// `q` is a walk from `s` to `v` over existing arcs that all have room.
pub open spec fn room_walk(net: &ArcNet, flows: Seq<u64>, q: Seq<Arc>, s: int, v: int) -> bool {
    &&& is_walk(net, q, s, v)
    &&& forall|i: int| 0 <= i < q.len() ==> (#[trigger] q[i]).0 < net.m() && room_of(net, flows, q[i]) > 0
}

/// Every recorded distance is the least number of arcs on a walk with room
/// from `s`, and some such walk has exactly that many arcs.
pub open spec fn bfs_distances(net: &ArcNet, flows: Seq<u64>, s: int, dist: Seq<Option<i128>>) -> bool {
    forall|v: int| 0 <= v < net.n && (#[trigger] dist[v]) is Some ==> {
        &&& (v == s <==> dist_at(dist, v) == 0)
        &&& (v != s ==> exists|q: Seq<Arc>| #[trigger] room_walk(net, flows, q, s, v) && q.len() == dist_at(dist, v))
        &&& forall|q: Seq<Arc>| #[trigger] room_walk(net, flows, q, s, v) ==> q.len() >= dist_at(dist, v)
    }
}

/// Discovered nodes carry distances that never decrease along the order,
/// the `j`-th at most `j`.
spec fn level_ok(dist: Seq<Option<i128>>, order: Seq<usize>) -> bool {
    &&& forall|j: int| 0 <= j < order.len() ==> (#[trigger] dist[order[j] as int]) is Some && 0 <= dist_at(dist, order[j] as int) <= j
    &&& forall|i: int, j: int| #![trigger order[i], order[j]] 0 <= i < j < order.len() ==> dist_at(dist, order[i] as int) <= dist_at(dist, order[j] as int)
}

/// The `j`-th discovered node lies one arc further than its predecessor's tail.
spec fn pred_level(net: &ArcNet, pred: Seq<Option<Arc>>, dist: Seq<Option<i128>>, order: Seq<usize>, j: int) -> bool {
    dist_at(dist, order[j] as int) == dist_at(dist, net.arc_tail(pred[order[j] as int]->0)) + 1
}

/// Along a walk with room from `s`, the head of the `k`-th arc is discovered
/// at distance at most `k`, provided every node closer than `bound` has been
/// fully scanned and `k <= bound`.
proof fn lemma_walk_levels(
    net: &ArcNet,
    flows: Seq<u64>,
    visited: Seq<bool>,
    dist: Seq<Option<i128>>,
    order: Seq<usize>,
    done: int,
    bound: int,
    q: Seq<Arc>,
    s: int,
    k: int,
)
    requires
        net.wf(),
        net.complete(),
        visited.len() == net.n,
        dist.len() == net.n,
        order.len() > 0,
        order[0] == s,
        level_ok(dist, order),
        0 <= done <= order.len(),
        forall|u: int| 0 <= u < net.n && #[trigger] visited[u] ==> exists|j: int| 0 <= j < order.len() && order[j] == u,
        forall|j: int| 0 <= j < order.len() ==> #[trigger] order[j] < net.n,
        forall|j: int| 0 <= j < done ==> arcs_closed_at(net, flows, visited, dist, #[trigger] order[j] as int, net.adj@[order[j] as int]@.len() as int),
        forall|j: int| 0 <= j < order.len() && dist_at(dist, #[trigger] order[j] as int) < bound ==> j < done,
        room_walk(net, flows, q, s, net.arc_head(q[q.len() - 1])),
        1 <= k <= q.len(),
        k <= bound,
    ensures
        visited[net.arc_head(q[k - 1])],
        dist_at(dist, net.arc_head(q[k - 1])) <= k,
    decreases k,
{
    let a = q[k - 1];
    let u = net.arc_tail(a);
    let mut ju: int = 0;
    if k == 1 {
        assert(dist[order[0] as int] is Some);
        assert(dist_at(dist, order[0] as int) == 0);
        assert(0 < done);
    } else {
        lemma_walk_levels(net, flows, visited, dist, order, done, bound, q, s, k - 1);
        assert(net.arc_head(q[k - 2]) == net.arc_tail(q[k - 1]));
        ju = choose|j: int| 0 <= j < order.len() && order[j] == u;
        assert(dist_at(dist, order[ju] as int) < bound);
        assert(ju < done);
    }
    assert(order[ju] as int == u);
    assert(arcs_closed_at(net, flows, visited, dist, order[ju] as int, net.adj@[order[ju] as int]@.len() as int));
    assert(a.0 < net.m() && room_of(net, flows, a) > 0);
    let e = a.0 as int;
    assert(net.lists_arcs_of(e));
    let x = if a.1 {
        choose|x: int| 0 <= x < net.adj@[net.tail@[e] as int]@.len()
            && (#[trigger] net.adj@[net.tail@[e] as int]@[x]).0 as int == e && net.adj@[net.tail@[e] as int]@[x].1
    } else {
        choose|x: int| 0 <= x < net.adj@[net.head@[e] as int]@.len()
            && (#[trigger] net.adj@[net.head@[e] as int]@[x]).0 as int == e && !net.adj@[net.head@[e] as int]@[x].1
    };
    assert(net.adj@[u]@[x] == a);
    assert(room_of(net, flows, net.adj@[u]@[x]) > 0);
    assert(dist[order[ju] as int] is Some);
}

/// Follows predecessor arcs from the `j`-th discovered node back to `s`: a
/// walk with room whose length is that node's recorded distance.
proof fn lemma_pred_walk(
    net: &ArcNet,
    flows: Seq<u64>,
    pred: Seq<Option<Arc>>,
    dist: Seq<Option<i128>>,
    order: Seq<usize>,
    s: int,
    j: int,
) -> (q: Seq<Arc>)
    requires
        net.wf(),
        discovery_ok(net, flows, pred, order, s),
        level_ok(dist, order),
        forall|i: int| 1 <= i < order.len() ==> #[trigger] pred_level(net, pred, dist, order, i),
        1 <= j < order.len(),
    ensures
        room_walk(net, flows, q, s, order[j] as int),
        q.len() == dist_at(dist, order[j] as int),
    decreases j,
{
    assert(pred_ok(net, flows, pred, order, j));
    assert(pred_level(net, pred, dist, order, j));
    let a = pred[order[j] as int]->0;
    let i = choose|i: int| 0 <= i < j && order[i] as int == net.arc_tail(a);
    if i == 0 {
        assert(dist[order[0] as int] is Some);
        let q = seq![a];
        assert(q[0] == a);
        q
    } else {
        let q0 = lemma_pred_walk(net, flows, pred, dist, order, s, i);
        let q = q0.push(a);
        assert forall|x: int| 0 <= x < q.len() - 1 implies #[trigger] net.arc_head(q[x]) == net.arc_tail(q[x + 1]) by {
            if x < q.len() - 2 {
                assert(q[x] == q0[x] && q[x + 1] == q0[x + 1]);
            } else {
                assert(q[x] == q0[q0.len() - 1]);
                assert(q[x + 1] == a);
            }
        }
        assert forall|x: int| 0 <= x < q.len() implies (#[trigger] q[x]).0 < net.m() && room_of(net, flows, q[x]) > 0 by {
            if x < q.len() - 1 {
                assert(q[x] == q0[x]);
            }
        }
        assert(q[0] == q0[0]);
        q
    }
}

/// The recorded distances are least walk lengths, once every node closer
/// than `cap` has been fully scanned and none lies beyond `cap + 1`.
proof fn lemma_bfs_distances(
    net: &ArcNet,
    flows: Seq<u64>,
    visited: Seq<bool>,
    pred: Seq<Option<Arc>>,
    dist: Seq<Option<i128>>,
    order: Seq<usize>,
    done: int,
    cap: int,
    s: int,
)
    requires
        net.wf(),
        net.complete(),
        visited.len() == net.n,
        dist.len() == net.n,
        discovery_ok(net, flows, pred, order, s),
        level_ok(dist, order),
        forall|i: int| 1 <= i < order.len() ==> #[trigger] pred_level(net, pred, dist, order, i),
        0 <= done <= order.len(),
        forall|u: int| 0 <= u < net.n && #[trigger] visited[u] ==> exists|j: int| 0 <= j < order.len() && order[j] == u,
        forall|j: int| 0 <= j < order.len() ==> visited[#[trigger] order[j] as int],
        forall|u: int| 0 <= u < net.n ==> ((#[trigger] dist[u]) is Some ==> visited[u]),
        forall|j: int| 0 <= j < order.len() ==> #[trigger] order[j] < net.n,
        forall|j: int| 0 <= j < done ==> arcs_closed_at(net, flows, visited, dist, #[trigger] order[j] as int, net.adj@[order[j] as int]@.len() as int),
        forall|j: int| 0 <= j < order.len() && dist_at(dist, #[trigger] order[j] as int) < cap ==> j < done,
        forall|j: int| 0 <= j < order.len() ==> dist_at(dist, #[trigger] order[j] as int) <= cap + 1,
    ensures
        bfs_distances(net, flows, s, dist),
{
    assert forall|v: int| 0 <= v < net.n && (#[trigger] dist[v]) is Some implies {
        &&& (v == s <==> dist_at(dist, v) == 0)
        &&& (v != s ==> exists|q: Seq<Arc>| #[trigger] room_walk(net, flows, q, s, v) && q.len() == dist_at(dist, v))
        &&& forall|q: Seq<Arc>| #[trigger] room_walk(net, flows, q, s, v) ==> q.len() >= dist_at(dist, v)
    } by {
        assert(visited[v]);
        let j = choose|j: int| 0 <= j < order.len() && order[j] == v;
        assert(dist[order[0] as int] is Some);
        if j == 0 {
            assert(dist_at(dist, v) == 0);
        } else {
            assert(order[0] != order[j]);
            assert(pred_level(net, pred, dist, order, j));
            let a = pred[order[j] as int]->0;
            assert(pred_ok(net, flows, pred, order, j));
            let i = choose|i: int| 0 <= i < j && order[i] as int == net.arc_tail(a);
            assert(dist[order[i] as int] is Some);
            assert(dist_at(dist, v) >= 1);
            let q = lemma_pred_walk(net, flows, pred, dist, order, s, j);
            assert(room_walk(net, flows, q, s, v));
        }
        assert forall|q: Seq<Arc>| #[trigger] room_walk(net, flows, q, s, v) implies q.len() >= dist_at(dist, v) by {
            if q.len() < dist_at(dist, v) {
                assert(dist_at(dist, order[j] as int) <= cap + 1);
                lemma_walk_levels(net, flows, visited, dist, order, done, cap, q, s, q.len() as int);
            }
        }
    }
}

/// A search result whose arcs are all valid.
pub open spec fn search_ok(net: &ArcNet, r: &Search) -> bool {
    &&& r.distances@.len() == net.n
    &&& forall|i: int| 0 <= i < r.order@.len() ==> #[trigger] r.order@[i] < net.n
    &&& r.path matches Some(p) ==> forall|i: int| 0 <= i < p@.len() ==> (#[trigger] p@[i]).0 < net.m()
}

/// Breadth-first search for a shortest positive residual path from `s` to
/// `t`. Every inspected arc counts against `scans`, which may not pass `limit`.
/// When `steps` is given, one record is appended per inspected arc.
#[verifier::rlimit(80)]
#[verifier::spinoff_prover]
pub fn shortest_path(
    net: &ArcNet,
    flows: &Vec<u64>,
    s: usize,
    t: usize,
    scans: &mut u128,
    limit: u128,
    steps: &mut Option<Vec<ScanStep>>,
) -> (r: Result<Search, KernelError>)
    requires
        net.wf(),
        net.bounded(flows@),
        s < net.n,
        t < net.n,
        *old(scans) <= limit,
    ensures
        r matches Ok(res) ==> search_ok(net, &res),
        *final(scans) >= *old(scans),
        *final(scans) <= limit,
        r matches Ok(res) ==> (s != t && net.complete() && res.path is None ==> exists|side: Seq<bool>|
            side.len() == net.n && side[s as int] && !side[t as int] && #[trigger] side_closed(net, flows@, side)),
        r matches Ok(res) ==> (res.path matches Some(p) ==> s != t ==> is_walk(net, p@, s as int, t as int)),
        r matches Ok(res) ==> (res.path matches Some(p) ==> distinct_edges(p@)
            && forall|i: int| 0 <= i < p@.len() ==> room_of(net, flows@, #[trigger] p@[i]) > 0),
        r is Err ==> (r matches Err(KernelError::WorkLimit) || r matches Err(KernelError::MetricOverflow)),
        r matches Err(KernelError::WorkLimit) ==> *final(scans) == limit,
        r matches Err(KernelError::MetricOverflow) ==> *final(scans) == u128::MAX,
        r matches Ok(res) ==> (res.path is Some ==> s != t),
        r matches Ok(res) ==> res.order@.len() > 0 && res.order@[0] == s
            && forall|i: int, j: int| 0 <= i < j < res.order@.len() ==> res.order@[i] != res.order@[j],
        r matches Ok(res) ==> marks_discovered(res.distances@, res.order@, net.n as int),
        r matches Ok(res) ==> (net.complete() ==> bfs_distances(net, flows@, s as int, res.distances@)),
        r matches Ok(res) ==> (res.path matches Some(p) ==> res.distances@[t as int] is Some
            && p@.len() == dist_at(res.distances@, t as int)),
        r matches Ok(res) ==> (net.complete() ==> (res.path matches Some(p) ==> forall|q: Seq<Arc>|
            #[trigger] room_walk(net, flows@, q, s as int, t as int) ==> p@.len() <= q.len())),
        *final(scans) <= *old(scans) + net.n * max_listed(net, net.n as int),
{
    let n = net.n;
    let ghost deg = max_listed(net, n as int);
    proof {
        lemma_max_listed_bounds(net, n as int, s as int);
        assert(0 <= n * deg) by (nonlinear_arith)
            requires
                deg >= 0,
        ;
    }
    let mut pred: Vec<Option<Arc>> = Vec::new();
    let mut visited: Vec<bool> = Vec::new();
    let mut distances: Vec<Option<i128>> = Vec::new();
    let mut v: usize = 0;
    while v < n
        invariant
            v <= n,
            n == net.n,
            pred@.len() == v,
            visited@.len() == v,
            distances@.len() == v,
            forall|u: int| 0 <= u < v ==> !(#[trigger] visited@[u]),
            forall|u: int| 0 <= u < v ==> (#[trigger] pred@[u]) is None,
            forall|u: int| 0 <= u < v ==> (#[trigger] distances@[u]) is None,
        decreases n - v,
    {
        pred.push(None);
        visited.push(false);
        distances.push(None);
        v = v + 1;
    }
    proof {
        lemma_count_zero(visited@, n as int);
        lemma_count_true_set(visited@, s as int, n as int);
    }
    visited.set(s, true);
    distances.set(s, Some(0));
    let mut order: Vec<usize> = Vec::new();
    order.push(s);
    let mut head: usize = 0;
    proof {
        assert(order@[0] == s);
        assert forall|u: int| 0 <= u < n && #[trigger] visited@[u] implies exists|j: int| 0 <= j < order@.len() && order@[j] == u by {
            assert(u == s as int);
        }
        assert(discovery_ok(net, flows@, pred@, order@, s as int));
        assert(distances@[order@[0] as int] == Some(0i128));
        assert(level_ok(distances@, order@));
    }
    while head < order.len()
        invariant
            net.wf(),
            net.bounded(flows@),
            n == net.n,
            s < n,
            t < n,
            pred@.len() == n,
            visited@.len() == n,
            distances@.len() == n,
            order@.len() == count_true(visited@, n as int),
            head <= order@.len(),
            forall|i: int| 0 <= i < order@.len() ==> #[trigger] order@[i] < n,
            forall|u: int| 0 <= u < n ==> ((#[trigger] pred@[u]) matches Some(a) ==> a.0 < net.m()),
            *scans >= *old(scans),
            *scans <= limit,
            visited@[s as int],
            s != t ==> !visited@[t as int],
            forall|u: int| 0 <= u < n && #[trigger] visited@[u] ==> exists|j: int| 0 <= j < order@.len() && order@[j] == u,
            forall|j: int| 0 <= j < head ==> arcs_closed_at(net, flows@, visited@, distances@, #[trigger] order@[j] as int, net.adj@[order@[j] as int]@.len() as int),
            forall|j: int| 0 <= j < order@.len() ==> visited@[#[trigger] order@[j] as int],
            discovery_ok(net, flows@, pred@, order@, s as int),
            level_ok(distances@, order@),
            forall|j: int| 1 <= j < order@.len() ==> #[trigger] pred_level(net, pred@, distances@, order@, j),
            deg == max_listed(net, n as int),
            deg >= 0,
            *scans <= *old(scans) + head * deg,
            head * deg <= n * deg,
            head == 0 ==> order@.len() == 1,
            head >= 1 ==> dist_at(distances@, order@[order@.len() - 1] as int) <= dist_at(distances@, order@[head - 1] as int) + 1,
            forall|u: int| 0 <= u < n ==> ((#[trigger] distances@[u]) is Some ==> visited@[u]),
        decreases n + 1 - head,
    {
        proof {
            lemma_count_true_bounds(visited@, n as int);
        }
        let node = order[head];
        head = head + 1;
        proof {
            lemma_max_listed_bounds(net, n as int, node as int);
            assert((head - 1) * deg + deg == head * deg) by (nonlinear_arith);
            assert(head * deg <= n * deg) by (nonlinear_arith)
                requires
                    head <= n,
                    deg >= 0,
            ;
            if head >= 2 {
                assert(dist_at(distances@, order@[head - 2] as int) <= dist_at(distances@, order@[head - 1] as int));
            }
        }
        let arcs = &net.adj[node];
        let mut i: usize = 0;
        while i < arcs.len()
            invariant
                net.wf(),
                net.bounded(flows@),
                n == net.n,
                node < n,
                arcs == &net.adj@[node as int],
                s < n,
                t < n,
                pred@.len() == n,
                visited@.len() == n,
                distances@.len() == n,
                order@.len() == count_true(visited@, n as int),
                head <= order@.len(),
                i <= arcs@.len(),
                forall|j: int| 0 <= j < order@.len() ==> #[trigger] order@[j] < n,
                forall|u: int| 0 <= u < n ==> ((#[trigger] pred@[u]) matches Some(a) ==> a.0 < net.m()),
                *scans >= *old(scans),
                *scans <= limit,
                head >= 1,
                node == order@[head - 1],
                visited@[s as int],
                s != t ==> !visited@[t as int],
                forall|u: int| 0 <= u < n && #[trigger] visited@[u] ==> exists|j: int| 0 <= j < order@.len() && order@[j] == u,
                forall|j: int| 0 <= j < head - 1 ==> arcs_closed_at(net, flows@, visited@, distances@, #[trigger] order@[j] as int, net.adj@[order@[j] as int]@.len() as int),
                arcs_closed_at(net, flows@, visited@, distances@, node as int, i as int),
                forall|j: int| 0 <= j < order@.len() ==> visited@[#[trigger] order@[j] as int],
                discovery_ok(net, flows@, pred@, order@, s as int),
                level_ok(distances@, order@),
                forall|j: int| 1 <= j < order@.len() ==> #[trigger] pred_level(net, pred@, distances@, order@, j),
                deg == max_listed(net, n as int),
                arcs@.len() <= deg,
                *scans <= *old(scans) + (head - 1) * deg + i,
                (head - 1) * deg + deg == head * deg,
                head * deg <= n * deg,
                dist_at(distances@, order@[order@.len() - 1] as int) <= dist_at(distances@, node as int) + 1,
                forall|u: int| 0 <= u < n ==> ((#[trigger] distances@[u]) is Some ==> visited@[u]),
            decreases arcs@.len() - i,
        {
            let a = arcs[i];
            i = i + 1;
            if net.residual(flows, a) == 0 {
                proof {
                    assert(room_of(net, flows@, net.adj@[node as int]@[i - 1]) == 0);
                }
                continue;
            }
            if *scans >= limit {
                return Err(KernelError::WorkLimit);
            }
            if *scans == u128::MAX {
                return Err(KernelError::MetricOverflow);
            }
            *scans = *scans + 1;
            let to = net.head_of(a);
            let discovered = !visited[to];
            let ghost visited_before = visited@;
            let ghost order_before = order@;
            let ghost old_pred = pred@;
            let ghost dist_before = distances@;
            proof {
                assert(net.adj@[node as int]@[i - 1] == a);
                assert(net.arc_tail(a) == node);
            }
            if discovered {
                proof {
                    lemma_count_true_set(visited@, to as int, n as int);
                }
                visited.set(to, true);
                pred.set(to, Some(a));
                proof {
                    assert(distances@[order@[head - 1] as int] is Some);
                    assert(dist_at(distances@, node as int) <= head - 1);
                }
                let d = match distances[node] {
                    Some(x) => if x < i128::MAX { Some(x + 1) } else { None },
                    None => None,
                };
                distances.set(to, d);
                order.push(to);
                proof {
                    assert(d == Some((dist_at(dist_before, node as int) + 1) as i128));
                    assert(order@[order@.len() - 1] == to);
                    let new_len = order@.len() as int;
                    assert(visited_before[node as int]);
                    assert(distances@[node as int] == dist_before[node as int]);
                    assert forall|jj: int| 0 <= jj < new_len - 1 implies order@[jj] == order_before[jj] && order_before[jj] != to
                        && distances@[order_before[jj] as int] == dist_before[order_before[jj] as int] by {
                        assert(visited_before[order_before[jj] as int]);
                    }
                    assert forall|jj: int| 0 <= jj < order@.len() implies (#[trigger] distances@[order@[jj] as int]) is Some
                        && 0 <= dist_at(distances@, order@[jj] as int) <= jj by {
                        if jj < new_len - 1 {
                            assert(dist_before[order_before[jj] as int] is Some);
                        } else {
                            assert(dist_before[order_before[head - 1] as int] is Some);
                        }
                    }
                    assert forall|i2: int, j2: int| #![trigger order@[i2], order@[j2]] 0 <= i2 < j2 < order@.len()
                        implies dist_at(distances@, order@[i2] as int) <= dist_at(distances@, order@[j2] as int) by {
                        if j2 < new_len - 1 {
                            assert(dist_at(dist_before, order_before[i2] as int) <= dist_at(dist_before, order_before[j2] as int));
                        } else if i2 < new_len - 2 {
                            assert(dist_at(dist_before, order_before[i2] as int) <= dist_at(dist_before, order_before[new_len - 2] as int));
                        }
                    }
                    assert(level_ok(distances@, order@));
                    assert forall|j2: int| 1 <= j2 < order@.len() implies #[trigger] pred_level(net, pred@, distances@, order@, j2) by {
                        if j2 < new_len - 1 {
                            assert(pred_level(net, old_pred, dist_before, order_before, j2));
                            assert(pred_ok(net, flows@, old_pred, order_before, j2));
                            let tl = net.arc_tail(old_pred[order_before[j2] as int]->0);
                            let i2 = choose|i2: int| 0 <= i2 < j2 && order_before[i2] as int == tl;
                            assert(pred@[order@[j2] as int] == old_pred[order_before[j2] as int]);
                            assert(distances@[tl] == dist_before[tl]);
                        } else {
                            assert(pred@[to as int] == Some(a));
                        }
                    }
                    assert forall|u: int| 0 <= u < n implies ((#[trigger] distances@[u]) is Some ==> visited@[u]) by {
                        if u != to as int {
                            assert(distances@[u] == dist_before[u]);
                        }
                    }
                    assert forall|jj: int| 0 <= jj < new_len - 1 implies order@[jj] != to by {
                        assert(order@[jj] == order_before[jj]);
                        assert(visited_before[order_before[jj] as int]);
                    }
                    assert forall|i2: int, j2: int| 0 <= i2 < j2 < order@.len() implies order@[i2] != order@[j2] by {
                        if j2 < new_len - 1 {
                            assert(order@[i2] == order_before[i2] && order@[j2] == order_before[j2]);
                        }
                    }
                    assert forall|j2: int| 1 <= j2 < order@.len() implies #[trigger] pred_ok(net, flows@, pred@, order@, j2) by {
                        if j2 < new_len - 1 {
                            assert(order@[j2] == order_before[j2]);
                            assert(pred_ok(net, flows@, old_pred, order_before, j2));
                            assert(order_before[j2] != to);
                            assert(pred@[order@[j2] as int] == old_pred[order_before[j2] as int]);
                            let i2 = choose|i2: int| 0 <= i2 < j2 && order_before[i2] as int == net.arc_tail(old_pred[order_before[j2] as int]->0);
                            assert(order@[i2] == order_before[i2]);
                        } else {
                            assert(pred@[to as int] == Some(a));
                            assert(net.arc_tail(a) == node);
                            assert(order@[head - 1] == node);
                        }
                    }
                    assert forall|j2: int| 0 <= j2 < order@.len() implies visited@[#[trigger] order@[j2] as int] by {
                        if j2 < new_len - 1 {
                            assert(order@[j2] == order_before[j2]);
                            assert(visited_before[order_before[j2] as int]);
                        }
                    }
                    assert forall|u: int| 0 <= u < n && #[trigger] visited@[u] implies exists|j: int| 0 <= j < order@.len() && order@[j] == u by {
                        if u != to as int {
                            assert(visited_before[u]);
                            let j = choose|j: int| 0 <= j < order_before.len() && order_before[j] == u;
                            assert(order@[j] == u);
                        } else {
                            assert(order@[order@.len() - 1] == u);
                        }
                    }
                    assert forall|j: int| 0 <= j < head - 1 implies arcs_closed_at(net, flows@, visited@, distances@, #[trigger] order@[j] as int, net.adj@[order@[j] as int]@.len() as int) by {
                        assert(order@[j] == order_before[j]);
                        let v = order_before[j] as int;
                        assert(arcs_closed_at(net, flows@, visited_before, dist_before, v, net.adj@[v]@.len() as int));
                        assert forall|x: int| 0 <= x < net.adj@[v]@.len() && room_of(net, flows@, #[trigger] net.adj@[v]@[x]) > 0
                            implies visited@[net.arc_head(net.adj@[v]@[x])] && dist_at(distances@, net.arc_head(net.adj@[v]@[x])) <= dist_at(distances@, v) + 1 by {
                            let h = net.arc_head(net.adj@[v]@[x]);
                            assert(visited_before[h]);
                            assert(distances@[h] == dist_before[h]);
                        }
                    }
                }
            }
            proof {
                assert(visited@[to as int]);
                assert(arcs_closed_at(net, flows@, visited_before, dist_before, node as int, i - 1));
                assert(visited_before[node as int]);
                assert(distances@[node as int] == dist_before[node as int]);
                assert forall|x: int| 0 <= x < i && room_of(net, flows@, #[trigger] net.adj@[node as int]@[x]) > 0
                    implies visited@[net.arc_head(net.adj@[node as int]@[x])]
                        && dist_at(distances@, net.arc_head(net.adj@[node as int]@[x])) <= dist_at(distances@, node as int) + 1 by {
                    if x == i - 1 {
                        assert(net.adj@[node as int]@[x] == a);
                        if !discovered {
                            let jt = choose|j: int| 0 <= j < order_before.len() && order_before[j] == to;
                            assert(distances@ == dist_before);
                            if jt < order@.len() - 1 {
                                assert(dist_at(distances@, order@[jt] as int) <= dist_at(distances@, order@[order@.len() - 1] as int));
                            }
                        }
                    } else {
                        let h = net.arc_head(net.adj@[node as int]@[x]);
                        assert(visited_before[h]);
                        assert(distances@[h] == dist_before[h]);
                    }
                }
            }
            match steps {
                Some(list) => {
                    list.push(ScanStep { arc: a, discovered, distances: distances.clone(), order: order.clone(), scans: *scans });
                },
                None => {},
            }
            if discovered && to == t {
                proof {
                    lemma_count_true_bounds(visited@, n as int);
                }
                proof {
                    assert(distances@[order@[head - 1] as int] is Some);
                    assert(distances@[order@[order@.len() - 1] as int] is Some);
                    let cap = dist_at(distances@, node as int);
                    assert forall|j: int| 0 <= j < order@.len() && dist_at(distances@, #[trigger] order@[j] as int) < cap implies j < head - 1 by {
                        if j > head - 1 {
                            assert(dist_at(distances@, order@[head - 1] as int) <= dist_at(distances@, order@[j] as int));
                        }
                    }
                    assert forall|j: int| 0 <= j < order@.len() implies dist_at(distances@, #[trigger] order@[j] as int) <= cap + 1 by {
                        if j < order@.len() - 1 {
                            assert(dist_at(distances@, order@[j] as int) <= dist_at(distances@, order@[order@.len() - 1] as int));
                        }
                    }
                    if net.complete() {
                        lemma_bfs_distances(net, flows@, visited@, pred@, distances@, order@, head - 1, cap, s as int);
                    }
                    lemma_marks_discovered(visited@, distances@, order@, n as int);
                }
                let path = reconstruct(net, &pred, s, t, Ghost(order@), Ghost(flows@), Ghost(distances@))?;
                proof {
                    assert(distances@[t as int] is Some);
                }
                return Ok(Search { path: Some(path), distances, order });
            }
        }
    }
    proof {
        if s != t && net.complete() {
            assert forall|k: int| 0 <= k < net.m() implies #[trigger] edge_closed(net, flows@, visited@, k) by {
                assert(net.lists_arcs_of(k));
                let tl = net.tail@[k] as int;
                let hd = net.head@[k] as int;
                if visited@[tl] && flows@[k] < net.cap@[k] {
                    let j = choose|j: int| 0 <= j < order@.len() && order@[j] == tl;
                    assert(arcs_closed_at(net, flows@, visited@, distances@, order@[j] as int, net.adj@[order@[j] as int]@.len() as int));
                    let x = choose|x: int| 0 <= x < net.adj@[tl]@.len() && (#[trigger] net.adj@[tl]@[x]).0 as int == k && net.adj@[tl]@[x].1;
                    assert(room_of(net, flows@, net.adj@[tl]@[x]) > 0);
                }
                if visited@[hd] && flows@[k] > net.lower@[k] {
                    let j = choose|j: int| 0 <= j < order@.len() && order@[j] == hd;
                    assert(arcs_closed_at(net, flows@, visited@, distances@, order@[j] as int, net.adj@[order@[j] as int]@.len() as int));
                    let x = choose|x: int| 0 <= x < net.adj@[hd]@.len() && (#[trigger] net.adj@[hd]@[x]).0 as int == k && !net.adj@[hd]@[x].1;
                    assert(room_of(net, flows@, net.adj@[hd]@[x]) > 0);
                }
            }
            assert(side_closed(net, flows@, visited@));
        }
        assert(distances@[order@[order@.len() - 1] as int] is Some);
        let cap = dist_at(distances@, order@[order@.len() - 1] as int);
        assert forall|j: int| 0 <= j < order@.len() implies dist_at(distances@, #[trigger] order@[j] as int) <= cap + 1 by {
            if j < order@.len() - 1 {
                assert(dist_at(distances@, order@[j] as int) <= dist_at(distances@, order@[order@.len() - 1] as int));
            }
        }
        if net.complete() {
            lemma_bfs_distances(net, flows@, visited@, pred@, distances@, order@, head as int, cap, s as int);
        }
        lemma_marks_discovered(visited@, distances@, order@, n as int);
    }
    Ok(Search { path: None, distances, order })
}

/// Follows predecessor arcs back from `t` to `s`.
fn reconstruct(
    net: &ArcNet,
    pred: &Vec<Option<Arc>>,
    s: usize,
    t: usize,
    Ghost(order): Ghost<Seq<usize>>,
    Ghost(f): Ghost<Seq<u64>>,
    Ghost(dist): Ghost<Seq<Option<i128>>>,
) -> (r: Result<Vec<Arc>, KernelError>)
    requires
        level_ok(dist, order),
        forall|j: int| 1 <= j < order.len() ==> #[trigger] pred_level(net, pred@, dist, order, j),
        net.wf(),
        pred@.len() == net.n,
        forall|u: int| 0 <= u < net.n ==> ((#[trigger] pred@[u]) matches Some(a) ==> a.0 < net.m()),
        t < net.n,
        discovery_ok(net, f, pred@, order, s as int),
        order.len() <= net.n,
        forall|j: int| 0 <= j < order.len() ==> #[trigger] order[j] < net.n,
        order[order.len() - 1] == t,
    ensures
        r is Ok,
        r matches Ok(p) ==> forall|i: int| 0 <= i < p@.len() ==> (#[trigger] p@[i]).0 < net.m(),
        r matches Ok(p) ==> (s != t ==> is_walk(net, p@, s as int, t as int)),
        r matches Ok(p) ==> forall|i: int| 0 <= i < p@.len() ==> room_of(net, f, #[trigger] p@[i]) > 0,
        r matches Ok(p) ==> distinct_edges(p@),
        r matches Ok(p) ==> p@.len() == dist_at(dist, t as int),
{
    let mut reversed: Vec<Arc> = Vec::new();
    let mut cursor = t;
    let ghost jt = order.len() - 1;
    let ghost mut jc: int = jt;
    let ghost mut idx_h: Seq<int> = Seq::empty();
    let ghost mut idx_t: Seq<int> = Seq::empty();
    while cursor != s
        invariant
            net.wf(),
            pred@.len() == net.n,
            forall|u: int| 0 <= u < net.n ==> ((#[trigger] pred@[u]) matches Some(a) ==> a.0 < net.m()),
            cursor < net.n,
            reversed@.len() <= net.n,
            forall|i: int| 0 <= i < reversed@.len() ==> (#[trigger] reversed@[i]).0 < net.m(),
            reversed@.len() == 0 ==> cursor == t,
            reversed@.len() > 0 ==> net.arc_head(reversed@[0]) == t && net.arc_tail(reversed@[reversed@.len() - 1]) == cursor,
            forall|i: int| 0 <= i < reversed@.len() - 1 ==> #[trigger] net.arc_tail(reversed@[i]) == net.arc_head(reversed@[i + 1]),
            discovery_ok(net, f, pred@, order, s as int),
            order.len() <= net.n,
            jt == order.len() - 1,
            0 <= jc <= jt,
            cursor == order[jc],
            reversed@.len() <= jt - jc,
            idx_h.len() == reversed@.len(),
            idx_t.len() == reversed@.len(),
            forall|i: int| 0 <= i < reversed@.len() ==> {
                &&& 0 <= #[trigger] idx_t[i] < idx_h[i] <= jt
                &&& order[idx_h[i]] as int == net.arc_head(reversed@[i])
                &&& order[idx_t[i]] as int == net.arc_tail(reversed@[i])
                &&& room_of(net, f, reversed@[i]) > 0
            },
            forall|i: int| 0 <= i < reversed@.len() - 1 ==> #[trigger] idx_t[i] == idx_h[i + 1],
            reversed@.len() > 0 ==> idx_t[reversed@.len() - 1] == jc,
            forall|i: int, j: int| 0 <= i < j < reversed@.len() ==> #[trigger] idx_h[j] < #[trigger] idx_h[i],
            level_ok(dist, order),
            forall|j: int| 1 <= j < order.len() ==> #[trigger] pred_level(net, pred@, dist, order, j),
            reversed@.len() + dist_at(dist, cursor as int) == dist_at(dist, t as int),
        decreases net.n - reversed@.len(),
    {
        proof {
            if jc == 0 {
                assert(order[0] == s);
            }
            assert(jc >= 1) by {
                if jc == 0 {
                    assert(cursor == s);
                }
            }
            assert(pred_ok(net, f, pred@, order, jc));
            assert(pred_level(net, pred@, dist, order, jc));
        }
        let a = match pred[cursor] {
            Some(a) => a,
            None => return Err(KernelError::PredecessorInvariant),
        };
        if net.head_of(a) != cursor {
            return Err(KernelError::PredecessorInvariant);
        }
        if reversed.len() >= net.n {
            return Err(KernelError::PredecessorInvariant);
        }
        let ghost before = reversed@;
        let ghost i_tail = choose|i: int| 0 <= i < jc && order[i] as int == net.arc_tail(a);
        reversed.push(a);
        cursor = net.tail_of(a);
        proof {
            let old_len = before.len() as int;
            idx_h = idx_h.push(jc);
            idx_t = idx_t.push(i_tail);
            assert forall|i: int, j: int| 0 <= i < j < reversed@.len() implies #[trigger] idx_h[j] < #[trigger] idx_h[i] by {
                if j == old_len {
                    if i < old_len - 1 {
                        assert(idx_h[old_len - 1] < idx_h[i]);
                    }
                    assert(idx_t[old_len - 1] < idx_h[old_len - 1]);
                }
            }
            assert forall|i: int| 0 <= i < reversed@.len() - 1 implies #[trigger] idx_t[i] == idx_h[i + 1] by {
                if i == old_len - 1 {
                    assert(idx_t[old_len - 1] == jc);
                }
            }
            assert forall|i: int| 0 <= i < reversed@.len() - 1 implies #[trigger] net.arc_tail(reversed@[i]) == net.arc_head(reversed@[i + 1]) by {
                if i < old_len - 1 {
                    assert(reversed@[i] == before[i] && reversed@[i + 1] == before[i + 1]);
                } else {
                    assert(reversed@[i] == before[old_len - 1]);
                }
            }
            jc = i_tail;
        }
    }
    proof {
        assert(dist[order[0] as int] is Some);
        assert(dist_at(dist, s as int) == 0);
        assert(reversed@.len() == dist_at(dist, t as int));
    }
    let mut path: Vec<Arc> = Vec::new();
    let mut i = reversed.len();
    while i > 0
        invariant
            reversed@.len() == dist_at(dist, t as int),
            i <= reversed@.len(),
            forall|j: int| 0 <= j < reversed@.len() ==> (#[trigger] reversed@[j]).0 < net.m(),
            forall|j: int| 0 <= j < path@.len() ==> (#[trigger] path@[j]).0 < net.m(),
            path@.len() == reversed@.len() - i,
            forall|j: int| 0 <= j < path@.len() ==> #[trigger] path@[j] == reversed@[reversed@.len() - 1 - j],
        decreases i,
    {
        i = i - 1;
        path.push(reversed[i]);
    }
    proof {
        let len = reversed@.len() as int;
        assert forall|i: int, j: int| 0 <= i < j < len implies (#[trigger] reversed@[i]).0 != (#[trigger] reversed@[j]).0 by {
            if reversed@[i].0 == reversed@[j].0 {
                assert(idx_h[j] < idx_h[i]);
                if i + 1 < j {
                    assert(idx_h[j] < idx_h[i + 1]);
                }
                assert(idx_t[i] == idx_h[i + 1]);
                assert(idx_h[j] <= idx_t[i]);
                if reversed@[i].1 == reversed@[j].1 {
                    assert(net.arc_tail(reversed@[i]) == net.arc_tail(reversed@[j]));
                    assert(order[idx_t[i]] == order[idx_t[j]]);
                    assert(idx_t[j] < idx_h[j]);
                } else {
                    assert(net.arc_tail(reversed@[i]) == net.arc_head(reversed@[j]));
                    assert(net.arc_head(reversed@[i]) == net.arc_tail(reversed@[j]));
                    assert(order[idx_t[i]] == order[idx_h[j]]);
                    assert(order[idx_h[i]] == order[idx_t[j]]);
                    if idx_t[i] != idx_h[j] {
                        assert(order[idx_t[i]] != order[idx_h[j]]);
                    }
                    if idx_h[i] != idx_t[j] {
                        assert(order[idx_h[i]] != order[idx_t[j]]);
                    }
                }
            }
        }
        assert forall|i: int, j: int| 0 <= i < j < path@.len() implies (#[trigger] path@[i]).0 != (#[trigger] path@[j]).0 by {
            assert(path@[i] == reversed@[len - 1 - i]);
            assert(path@[j] == reversed@[len - 1 - j]);
        }
        assert forall|i: int| 0 <= i < path@.len() implies room_of(net, f, #[trigger] path@[i]) > 0 by {
            assert(path@[i] == reversed@[len - 1 - i]);
            assert(0 <= idx_t[len - 1 - i] < idx_h[len - 1 - i]);
        }
        if s != t {
            assert(len > 0);
            assert(path@[0] == reversed@[len - 1]);
            assert(path@[len - 1] == reversed@[0]);
            assert forall|j: int| 0 <= j < path@.len() - 1 implies #[trigger] net.arc_head(path@[j]) == net.arc_tail(path@[j + 1]) by {
                assert(path@[j] == reversed@[len - 1 - j]);
                assert(path@[j + 1] == reversed@[len - 1 - (j + 1)]);
                assert(net.arc_tail(reversed@[len - 2 - j]) == net.arc_head(reversed@[len - 2 - j + 1]));
            }
        }
    }
    Ok(path)
}

/// Augments along shortest paths until `t` is unreachable from `s`, counting
/// augmentations against `max_augmentations` and residual arc scans, added
/// to `scans`, against `max_scans`.
pub fn max_flow(
    net: &ArcNet,
    flows: &mut Vec<u64>,
    s: usize,
    t: usize,
    max_augmentations: u64,
    max_scans: u128,
    scans: &mut u128,
) -> (r: Result<u64, KernelError>)
    requires
        net.wf(),
        net.bounded(old(flows)@),
        s < net.n,
        t < net.n,
        *old(scans) <= max_scans,
    ensures
        *old(scans) <= *final(scans) <= max_scans,
        r matches Err(KernelError::WorkLimit) ==> *final(scans) == max_scans
            || (s != t && exists|p: Seq<Arc>| #[trigger] room_walk(net, final(flows)@, p, s as int, t as int)),
        r matches Err(KernelError::MetricOverflow) ==> *final(scans) == u128::MAX,
        net.bounded(final(flows)@),
        forall|v: int| 0 <= v < net.n && v != s && v != t ==> #[trigger] net_div(net, final(flows)@, v, net.m() as int)
            == net_div(net, old(flows)@, v, net.m() as int),
        r matches Ok(k) ==> k <= max_augmentations,
        r is Ok ==> (s != t && net.complete() ==> exists|side: Seq<bool>|
            side.len() == net.n && side[s as int] && !side[t as int] && #[trigger] side_closed(net, final(flows)@, side)),
        r is Err ==> (r matches Err(KernelError::WorkLimit) || r matches Err(KernelError::MetricOverflow)),
{
    let mut augmentations: u64 = 0;
    let mut none: Option<Vec<ScanStep>> = None;
    loop
        invariant
            net.wf(),
            net.bounded(flows@),
            s < net.n,
            t < net.n,
            *old(scans) <= *scans <= max_scans,
            augmentations <= max_augmentations,
            forall|v: int| 0 <= v < net.n && v != s && v != t ==> #[trigger] net_div(net, flows@, v, net.m() as int)
                == net_div(net, old(flows)@, v, net.m() as int),
        decreases max_augmentations - augmentations,
    {
        let search = shortest_path(net, flows, s, t, scans, max_scans, &mut none)?;
        let path = match search.path {
            Some(p) => p,
            None => return Ok(augmentations),
        };
        if augmentations >= max_augmentations {
            proof {
                assert(search_ok(net, &search));
                assert(room_walk(net, flows@, path@, s as int, t as int));
            }
            return Err(KernelError::WorkLimit);
        }
        proof {
            assert(path@.len() > 0);
        }
        let amount = match net.bottleneck(flows, &path) {
            Some(b) => b,
            None => return Err(KernelError::PredecessorInvariant),
        };
        let ghost before = flows@;
        match net.augment(flows, &path, amount) {
            Ok(()) => {},
            Err(e) => return Err(e),
        }
        proof {
            assert forall|v: int| 0 <= v < net.n && v != s && v != t implies #[trigger] net_div(net, flows@, v, net.m() as int)
                == net_div(net, old(flows)@, v, net.m() as int) by {
                lemma_walk_balance(net, path@, s as int, v, path@.len() as int);
                assert(walk_balance(net, path@, v, path@.len() as int) == 0);
                assert(amount * walk_balance(net, path@, v, path@.len() as int) == 0) by (nonlinear_arith)
                    requires
                        walk_balance(net, path@, v, path@.len() as int) == 0,
                ;
                assert(net_div(net, flows@, v, net.m() as int) == net_div(net, before, v, net.m() as int));
            }
        }
        augmentations = augmentations + 1;
    }
}

} // verus!
