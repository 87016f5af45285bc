//! Flow networks in canonical identity order.
use vstd::prelude::*;

use crate::ids::{key_lt, lemma_key_lt_irreflexive, lemma_key_lt_transitive, EdgeId, NodeId};

verus! {

/// Largest node or edge count a network may hold.
pub const MAX_ELEMENTS: usize = 4_294_967_295;

/// Position of a node in canonical node order.
#[derive(Clone, Copy, Debug, PartialEq, Eq, Hash, PartialOrd, Ord)]
pub struct NodeIndex {
    index: usize,
}

/// Position of an edge in canonical edge order.
#[derive(Clone, Copy, Debug, PartialEq, Eq, Hash, PartialOrd, Ord)]
pub struct EdgeIndex {
    index: usize,
}

impl View for NodeIndex {
    type V = nat;

    closed spec fn view(&self) -> nat {
        self.index as nat
    }
}

impl View for EdgeIndex {
    type V = nat;

    closed spec fn view(&self) -> nat {
        self.index as nat
    }
}

impl NodeIndex {
    /// Builds an index; `None` above the largest representable position.
    pub fn try_from_usize(index: usize) -> (r: Option<NodeIndex>)
        ensures
            r matches Some(n) ==> n@ == index,
            r is None <==> index > MAX_ELEMENTS,
    {
        if index > MAX_ELEMENTS {
            None
        } else {
            Some(NodeIndex { index })
        }
    }

    /// The position as a `usize`.
    pub fn as_usize(&self) -> (r: usize)
        ensures
            r == self@,
    {
        proof {
            self.lemma_bounded();
        }
        self.index
    }

    /// Every index fits a `usize`.
    pub proof fn lemma_bounded(&self)
        ensures
            self@ <= usize::MAX,
    {
    }
}

impl EdgeIndex {
    /// Builds an index; `None` above the largest representable position.
    pub fn try_from_usize(index: usize) -> (r: Option<EdgeIndex>)
        ensures
            r matches Some(n) ==> n@ == index,
            r is None <==> index > MAX_ELEMENTS,
    {
        if index > MAX_ELEMENTS {
            None
        } else {
            Some(EdgeIndex { index })
        }
    }

    /// The position as a `usize`.
    pub fn as_usize(&self) -> (r: usize)
        ensures
            r == self@,
    {
        self.index
    }
}

/// A node with its identity and supply (positive: sends flow out).
#[derive(Clone, Debug, PartialEq, Eq)]
pub struct FlowNode {
    /// Stable identity.
    pub id: NodeId,
    /// Required net outflow.
    pub supply: i64,
}

impl FlowNode {
    /// A node with the given identity and supply.
    pub fn new(id: NodeId, supply: i64) -> (r: FlowNode)
        ensures
            r.id == id,
            r.supply == supply,
    {
        FlowNode { id, supply }
    }

    /// The node's identity.
    pub fn id(&self) -> (r: &NodeId)
        ensures
            r == &self.id,
    {
        &self.id
    }

    /// The node's supply.
    pub fn supply(&self) -> (r: i64)
        ensures
            r == self.supply,
    {
        self.supply
    }

    fn duplicate(&self) -> (r: FlowNode)
        ensures
            r.id@ == self.id@,
            r.supply == self.supply,
    {
        FlowNode { id: self.id.duplicate(), supply: self.supply }
    }
}

/// An edge whose endpoints are still given by identity.
#[derive(Clone, Debug, PartialEq, Eq)]
pub struct UnresolvedFlowEdge {
    /// Stable identity.
    pub id: EdgeId,
    /// Tail identity.
    pub from: NodeId,
    /// Head identity.
    pub to: NodeId,
    /// Lower flow bound.
    pub lower: u64,
    /// Upper flow bound.
    pub capacity: u64,
    /// Cost per unit of flow.
    pub cost: i64,
}

impl UnresolvedFlowEdge {
    fn duplicate(&self) -> (r: UnresolvedFlowEdge)
        ensures
            r.id@ == self.id@,
            r.from@ == self.from@,
            r.to@ == self.to@,
            r.lower == self.lower,
            r.capacity == self.capacity,
            r.cost == self.cost,
    {
        UnresolvedFlowEdge {
            id: self.id.duplicate(),
            from: self.from.duplicate(),
            to: self.to.duplicate(),
            lower: self.lower,
            capacity: self.capacity,
            cost: self.cost,
        }
    }
}

/// An edge whose endpoints are canonical node positions.
#[derive(Clone, Debug, PartialEq, Eq)]
pub struct FlowEdge {
    /// Stable identity.
    pub id: EdgeId,
    /// Tail.
    pub from: NodeIndex,
    /// Head.
    pub to: NodeIndex,
    /// Lower flow bound.
    pub lower: u64,
    /// Upper flow bound.
    pub capacity: u64,
    /// Cost per unit of flow.
    pub cost: i64,
}

impl FlowEdge {
    /// The edge's identity.
    pub fn id(&self) -> (r: &EdgeId)
        ensures
            r == &self.id,
    {
        &self.id
    }

    /// Tail.
    pub fn from(&self) -> (r: NodeIndex)
        ensures
            r == self.from,
    {
        self.from
    }

    /// Head.
    pub fn to(&self) -> (r: NodeIndex)
        ensures
            r == self.to,
    {
        self.to
    }

    /// Lower flow bound.
    pub fn lower(&self) -> (r: u64)
        ensures
            r == self.lower,
    {
        self.lower
    }

    /// Upper flow bound.
    pub fn capacity(&self) -> (r: u64)
        ensures
            r == self.capacity,
    {
        self.capacity
    }

    /// Cost per unit of flow.
    pub fn cost(&self) -> (r: i64)
        ensures
            r == self.cost,
    {
        self.cost
    }
}

/// Why a network could not be built.
#[derive(Clone, Copy, Debug, PartialEq, Eq)]
pub enum ModelError {
    /// More nodes or edges than a network may hold.
    TooLarge,
    /// Two nodes share an identity.
    DuplicateNode,
    /// Two edges share an identity.
    DuplicateEdge,
    /// An edge names a node that is not in the network.
    UnknownNode,
    /// An edge's lower bound exceeds its capacity.
    InvalidBounds,
}

/// Node identities strictly increase along the sequence.
pub open spec fn nodes_sorted(nodes: Seq<FlowNode>) -> bool {
    forall|i: int, j: int| 0 <= i < j < nodes.len() ==> key_lt(#[trigger] nodes[i].id@, #[trigger] nodes[j].id@)
}

/// Edge identities strictly increase along the sequence.
pub open spec fn edges_sorted(edges: Seq<FlowEdge>) -> bool {
    forall|i: int, j: int| 0 <= i < j < edges.len() ==> key_lt(#[trigger] edges[i].id@, #[trigger] edges[j].id@)
}

/// Two input nodes share an identity.
pub open spec fn has_duplicate_node(nodes: Seq<FlowNode>) -> bool {
    exists|i: int, j: int| 0 <= i < j < nodes.len() && #[trigger] nodes[i].id@ == #[trigger] nodes[j].id@
}

/// Two input edges share an identity.
pub open spec fn has_duplicate_edge(edges: Seq<UnresolvedFlowEdge>) -> bool {
    exists|i: int, j: int| 0 <= i < j < edges.len() && #[trigger] edges[i].id@ == #[trigger] edges[j].id@
}

/// Some node carries the identity.
pub open spec fn names_node(nodes: Seq<FlowNode>, id: Seq<u8>) -> bool {
    exists|i: int| 0 <= i < nodes.len() && #[trigger] nodes[i].id@ == id
}

/// Every edge endpoint names a node.
pub open spec fn endpoints_known(nodes: Seq<FlowNode>, edges: Seq<UnresolvedFlowEdge>) -> bool {
    forall|j: int| 0 <= j < edges.len() ==> names_node(nodes, #[trigger] edges[j].from@) && names_node(nodes, edges[j].to@)
}

/// Every edge has `lower <= capacity`.
pub open spec fn bounds_ordered(edges: Seq<UnresolvedFlowEdge>) -> bool {
    forall|j: int| 0 <= j < edges.len() ==> #[trigger] edges[j].lower <= edges[j].capacity
}

/// A built node carries the identity and supply of an input node.
pub open spec fn same_node(a: FlowNode, b: FlowNode) -> bool {
    a.id@ == b.id@ && a.supply == b.supply
}

/// A built edge resolves an input edge against the built node order.
pub open spec fn resolves(nodes: Seq<FlowNode>, e: FlowEdge, u: UnresolvedFlowEdge) -> bool {
    &&& e.id@ == u.id@
    &&& e.lower == u.lower
    &&& e.capacity == u.capacity
    &&& e.cost == u.cost
    &&& e.from@ < nodes.len()
    &&& e.to@ < nodes.len()
    &&& nodes[e.from@ as int].id@ == u.from@
    &&& nodes[e.to@ as int].id@ == u.to@
}

/// A validated network: nodes and edges in strict identity order, endpoints
/// in range, and `lower <= capacity` on every edge.
pub struct FlowNetwork {
    nodes: Vec<FlowNode>,
    edges: Vec<FlowEdge>,
}

impl FlowNetwork {
    /// Canonical node sequence.
    pub closed spec fn node_seq(&self) -> Seq<FlowNode> {
        self.nodes@
    }

    /// Canonical edge sequence.
    pub closed spec fn edge_seq(&self) -> Seq<FlowEdge> {
        self.edges@
    }

    /// Node count.
    pub open spec fn n(&self) -> nat {
        self.node_seq().len()
    }

    /// Edge count.
    pub open spec fn m(&self) -> nat {
        self.edge_seq().len()
    }

    /// The well-formedness every network keeps.
    #[verifier::type_invariant]
    pub open spec fn wf(&self) -> bool {
        &&& self.n() <= MAX_ELEMENTS
        &&& self.m() <= MAX_ELEMENTS
        &&& nodes_sorted(self.node_seq())
        &&& edges_sorted(self.edge_seq())
        &&& forall|k: int|
            0 <= k < self.m() ==> {
                let e = #[trigger] self.edge_seq()[k];
                &&& e.from@ < self.n()
                &&& e.to@ < self.n()
                &&& e.lower <= e.capacity
            }
    }

    /// Canonical nodes.
    pub fn nodes(&self) -> (r: &Vec<FlowNode>)
        ensures
            r@ == self.node_seq(),
    {
        &self.nodes
    }

    /// Canonical edges.
    pub fn edges(&self) -> (r: &Vec<FlowEdge>)
        ensures
            r@ == self.edge_seq(),
    {
        &self.edges
    }

    /// The node at an index, if it is in range.
    pub fn node(&self, index: NodeIndex) -> (r: Option<&FlowNode>)
        ensures
            r matches Some(node) ==> index@ < self.n() && *node == self.node_seq()[index@ as int],
            r is None <==> index@ >= self.n(),
    {
        let i = index.as_usize();
        if i < self.nodes.len() {
            Some(&self.nodes[i])
        } else {
            None
        }
    }

    /// The index of the node with the identity, if any.
    pub fn node_index(&self, id: &NodeId) -> (r: Option<NodeIndex>)
        ensures
            r matches Some(i) ==> i@ < self.n() && self.node_seq()[i@ as int].id@ == id@,
            r is None <==> !names_node(self.node_seq(), id@),
    {
        proof {
            use_type_invariant(self);
        }
        let mut i: usize = 0;
        while i < self.nodes.len()
            invariant
                i <= self.nodes@.len(),
                self.nodes@.len() <= MAX_ELEMENTS,
                forall|j: int| 0 <= j < i ==> self.nodes@[j].id@ != id@,
            decreases self.nodes@.len() - i,
        {
            if self.nodes[i].id.compare(id) == 0 {
                return Some(NodeIndex { index: i });
            }
            i = i + 1;
        }
        None
    }

    /// The index of the edge with the identity, if any.
    pub fn edge_index(&self, id: &EdgeId) -> (r: Option<EdgeIndex>)
        ensures
            r matches Some(i) ==> i@ < self.m() && self.edge_seq()[i@ as int].id@ == id@,
            r is None <==> !(exists|k: int| 0 <= k < self.m() && #[trigger] self.edge_seq()[k].id@ == id@),
    {
        proof {
            use_type_invariant(self);
        }
        let mut i: usize = 0;
        while i < self.edges.len()
            invariant
                i <= self.edges@.len(),
                self.edges@.len() <= MAX_ELEMENTS,
                forall|j: int| 0 <= j < i ==> self.edges@[j].id@ != id@,
            decreases self.edges@.len() - i,
        {
            if self.edges[i].id.compare(id) == 0 {
                proof {
                    assert(self.edge_seq()[i as int].id@ == id@);
                }
                return Some(EdgeIndex { index: i });
            }
            i = i + 1;
        }
        None
    }

    /// Validates and canonicalizes a network: nodes and edges are ordered by
    /// identity, and edge endpoints are resolved to node positions.
    pub fn new(nodes: Vec<FlowNode>, edges: Vec<UnresolvedFlowEdge>) -> (r: Result<FlowNetwork, ModelError>)
        ensures
            r matches Ok(g) ==> {
                &&& node_arrangement(g.node_seq(), nodes@)
                &&& edges_resolved(g.node_seq(), g.edge_seq(), edges@)
            },
            r is Ok <==> {
                &&& nodes@.len() <= MAX_ELEMENTS
                &&& edges@.len() <= MAX_ELEMENTS
                &&& !has_duplicate_node(nodes@)
                &&& !has_duplicate_edge(edges@)
                &&& endpoints_known(nodes@, edges@)
                &&& bounds_ordered(edges@)
            },
            r == Err::<FlowNetwork, ModelError>(ModelError::TooLarge) <==> nodes@.len() > MAX_ELEMENTS || edges@.len() > MAX_ELEMENTS,
            r == Err::<FlowNetwork, ModelError>(ModelError::DuplicateNode) ==> has_duplicate_node(nodes@),
            r == Err::<FlowNetwork, ModelError>(ModelError::DuplicateEdge) ==> has_duplicate_edge(edges@),
            r == Err::<FlowNetwork, ModelError>(ModelError::UnknownNode) ==> !endpoints_known(nodes@, edges@),
            r == Err::<FlowNetwork, ModelError>(ModelError::InvalidBounds) ==> !bounds_ordered(edges@),
    {
        if nodes.len() > MAX_ELEMENTS || edges.len() > MAX_ELEMENTS {
            return Err(ModelError::TooLarge);
        }
        let sorted_nodes = match sort_nodes(&nodes) {
            Some(s) => s,
            None => return Err(ModelError::DuplicateNode),
        };
        let sorted_edges = match sort_edges(&edges) {
            Some(s) => s,
            None => return Err(ModelError::DuplicateEdge),
        };
        let mut resolved: Vec<FlowEdge> = Vec::new();
        let mut k: usize = 0;
        while k < sorted_edges.len()
            invariant
                k <= sorted_edges@.len(),
                sorted_edges@.len() == edges@.len(),
                edges@.len() <= MAX_ELEMENTS,
                nodes@.len() <= MAX_ELEMENTS,
                node_arrangement(sorted_nodes@, nodes@),
                edge_arrangement(sorted_edges@, edges@),
                resolved@.len() == k,
                forall|i: int| 0 <= i < k ==> resolves(sorted_nodes@, #[trigger] resolved@[i], sorted_edges@[i]),
                forall|i: int| 0 <= i < k ==> #[trigger] resolved@[i].lower <= resolved@[i].capacity,
            decreases sorted_edges@.len() - k,
        {
            let u = &sorted_edges[k];
            let from = find_node(&sorted_nodes, &u.from);
            let to = find_node(&sorted_nodes, &u.to);
            if from.is_none() || to.is_none() {
                proof {
                    assert(unresolved_among(edges@, edges@.len() as int, sorted_edges@[k as int]));
                    let j = choose|j: int| 0 <= j < edges@.len() && same_unresolved(edges@[j], sorted_edges@[k as int]);
                    lemma_names_node_transfer(sorted_nodes@, nodes@, edges@[j].from@);
                    lemma_names_node_transfer(sorted_nodes@, nodes@, edges@[j].to@);
                }
                return Err(ModelError::UnknownNode);
            }
            if u.lower > u.capacity {
                proof {
                    assert(unresolved_among(edges@, edges@.len() as int, sorted_edges@[k as int]));
                    let j = choose|j: int| 0 <= j < edges@.len() && same_unresolved(edges@[j], sorted_edges@[k as int]);
                    assert(!(edges@[j].lower <= edges@[j].capacity));
                }
                return Err(ModelError::InvalidBounds);
            }
            let e = FlowEdge {
                id: u.id.duplicate(),
                from: NodeIndex { index: from.unwrap() },
                to: NodeIndex { index: to.unwrap() },
                lower: u.lower,
                capacity: u.capacity,
                cost: u.cost,
            };
            resolved.push(e);
            proof {
                assert(resolves(sorted_nodes@, resolved@[k as int], sorted_edges@[k as int]));
            }
            k = k + 1;
        }
        proof {
            lemma_resolution_complete(sorted_nodes@, nodes@, sorted_edges@, edges@, resolved@);
        }
        let g = FlowNetwork { nodes: sorted_nodes, edges: resolved };
        g
        .into_ok()
    }

    fn into_ok(self) -> (r: Result<FlowNetwork, ModelError>)
        ensures
            r == Ok::<FlowNetwork, ModelError>(self),
    {
        Ok(self)
    }
}

/// Some node among the first `k` of `s` has the identity and supply of `x`.
pub open spec fn node_among(s: Seq<FlowNode>, k: int, x: FlowNode) -> bool {
    exists|j: int| 0 <= j < k && same_node(s[j], x)
}

/// Some edge among the first `k` of `s` carries the data of `x`.
pub open spec fn unresolved_among(s: Seq<UnresolvedFlowEdge>, k: int, x: UnresolvedFlowEdge) -> bool {
    exists|j: int| 0 <= j < k && same_unresolved(s[j], x)
}

/// Some input edge is resolved by `e`.
pub open spec fn resolves_some(nodes: Seq<FlowNode>, e: FlowEdge, edges: Seq<UnresolvedFlowEdge>) -> bool {
    exists|j: int| 0 <= j < edges.len() && resolves(nodes, e, edges[j])
}

/// Some built edge resolves `u`.
pub open spec fn resolved_by_some(nodes: Seq<FlowNode>, out: Seq<FlowEdge>, u: UnresolvedFlowEdge) -> bool {
    exists|k: int| 0 <= k < out.len() && resolves(nodes, out[k], u)
}

/// Two unresolved edges carry the same data.
pub open spec fn same_unresolved(a: UnresolvedFlowEdge, b: UnresolvedFlowEdge) -> bool {
    &&& a.id@ == b.id@
    &&& a.from@ == b.from@
    &&& a.to@ == b.to@
    &&& a.lower == b.lower
    &&& a.capacity == b.capacity
    &&& a.cost == b.cost
}

/// `s` holds exactly the nodes of `nodes` (by identity and supply), in some order.
pub open spec fn node_arrangement(s: Seq<FlowNode>, nodes: Seq<FlowNode>) -> bool {
    &&& s.len() == nodes.len()
    &&& forall|i: int| 0 <= i < s.len() ==> #[trigger] node_among(nodes, nodes.len() as int, s[i])
    &&& forall|j: int| 0 <= j < nodes.len() ==> #[trigger] node_among(s, s.len() as int, nodes[j])
    &&& nodes_sorted(s)
}

/// `s` holds exactly the edges of `edges`, ordered by identity.
pub open spec fn edge_arrangement(s: Seq<UnresolvedFlowEdge>, edges: Seq<UnresolvedFlowEdge>) -> bool {
    &&& s.len() == edges.len()
    &&& forall|i: int| 0 <= i < s.len() ==> #[trigger] unresolved_among(edges, edges.len() as int, s[i])
    &&& forall|j: int| 0 <= j < edges.len() ==> #[trigger] unresolved_among(s, s.len() as int, edges[j])
    &&& unresolved_sorted(s)
}

/// `out` resolves exactly the edges of `edges` against `nodes`, ordered by identity.
pub open spec fn edges_resolved(nodes: Seq<FlowNode>, out: Seq<FlowEdge>, edges: Seq<UnresolvedFlowEdge>) -> bool {
    &&& out.len() == edges.len()
    &&& forall|k: int| 0 <= k < out.len() ==> #[trigger] resolves_some(nodes, out[k], edges)
    &&& forall|j: int| 0 <= j < edges.len() ==> #[trigger] resolved_by_some(nodes, out, edges[j])
    &&& edges_sorted(out)
}

proof fn lemma_resolution_complete(
    sorted_nodes: Seq<FlowNode>,
    nodes: Seq<FlowNode>,
    sorted_edges: Seq<UnresolvedFlowEdge>,
    edges: Seq<UnresolvedFlowEdge>,
    resolved: Seq<FlowEdge>,
)
    requires
        node_arrangement(sorted_nodes, nodes),
        edge_arrangement(sorted_edges, edges),
        resolved.len() == sorted_edges.len(),
        forall|i: int| 0 <= i < resolved.len() ==> resolves(sorted_nodes, #[trigger] resolved[i], sorted_edges[i]),
        forall|i: int| 0 <= i < resolved.len() ==> #[trigger] resolved[i].lower <= resolved[i].capacity,
    ensures
        edges_resolved(sorted_nodes, resolved, edges),
        endpoints_known(nodes, edges),
        bounds_ordered(edges),
        forall|k: int| 0 <= k < resolved.len() ==> {
            let e = #[trigger] resolved[k];
            &&& e.from@ < sorted_nodes.len()
            &&& e.to@ < sorted_nodes.len()
            &&& e.lower <= e.capacity
        },
{
    assert forall|i: int, j: int| 0 <= i < j < resolved.len() implies key_lt(#[trigger] resolved[i].id@, #[trigger] resolved[j].id@) by {
        assert(resolves(sorted_nodes, resolved[i], sorted_edges[i]));
        assert(resolves(sorted_nodes, resolved[j], sorted_edges[j]));
    }
    assert forall|j: int| 0 <= j < edges.len() implies #[trigger] resolved_by_some(sorted_nodes, resolved, edges[j]) by {
        assert(unresolved_among(sorted_edges, sorted_edges.len() as int, edges[j]));
        let i = choose|i: int| 0 <= i < sorted_edges.len() && same_unresolved(sorted_edges[i], edges[j]);
        assert(resolves(sorted_nodes, resolved[i], sorted_edges[i]));
        assert(resolves(sorted_nodes, resolved[i], edges[j]));
    }
    assert forall|k: int| 0 <= k < resolved.len() implies #[trigger] resolves_some(sorted_nodes, resolved[k], edges) by {
        assert(unresolved_among(edges, edges.len() as int, sorted_edges[k]));
        let j = choose|j: int| 0 <= j < edges.len() && same_unresolved(edges[j], sorted_edges[k]);
        assert(resolves(sorted_nodes, resolved[k], sorted_edges[k]));
        assert(resolves(sorted_nodes, resolved[k], edges[j]));
    }
    assert forall|j: int| 0 <= j < edges.len() implies names_node(nodes, #[trigger] edges[j].from@) && names_node(nodes, edges[j].to@) by {
        assert(unresolved_among(sorted_edges, sorted_edges.len() as int, edges[j]));
        let i = choose|i: int| 0 <= i < sorted_edges.len() && same_unresolved(sorted_edges[i], edges[j]);
        assert(resolves(sorted_nodes, resolved[i], sorted_edges[i]));
        let a = resolved[i].from@ as int;
        let b = resolved[i].to@ as int;
        assert(node_among(nodes, nodes.len() as int, sorted_nodes[a]));
        assert(node_among(nodes, nodes.len() as int, sorted_nodes[b]));
        let ja = choose|jj: int| 0 <= jj < nodes.len() && same_node(nodes[jj], sorted_nodes[a]);
        let jb = choose|jj: int| 0 <= jj < nodes.len() && same_node(nodes[jj], sorted_nodes[b]);
        assert(nodes[ja].id@ == edges[j].from@);
        assert(nodes[jb].id@ == edges[j].to@);
    }
    assert forall|j: int| 0 <= j < edges.len() implies #[trigger] edges[j].lower <= edges[j].capacity by {
        assert(unresolved_among(sorted_edges, sorted_edges.len() as int, edges[j]));
        let i = choose|i: int| 0 <= i < sorted_edges.len() && same_unresolved(sorted_edges[i], edges[j]);
        assert(resolves(sorted_nodes, resolved[i], sorted_edges[i]));
    }
    assert forall|k: int| 0 <= k < resolved.len() implies {
        let e = #[trigger] resolved[k];
        &&& e.from@ < sorted_nodes.len()
        &&& e.to@ < sorted_nodes.len()
        &&& e.lower <= e.capacity
    } by {
        assert(resolves(sorted_nodes, resolved[k], sorted_edges[k]));
    }
}

proof fn lemma_names_node_transfer(sorted: Seq<FlowNode>, nodes: Seq<FlowNode>, id: Seq<u8>)
    requires
        node_arrangement(sorted, nodes),
    ensures
        names_node(sorted, id) == names_node(nodes, id),
{
    if names_node(sorted, id) {
        let i = choose|i: int| 0 <= i < sorted.len() && #[trigger] sorted[i].id@ == id;
        assert(node_among(nodes, nodes.len() as int, sorted[i]));
        let j = choose|j: int| 0 <= j < nodes.len() && same_node(nodes[j], sorted[i]);
        assert(nodes[j].id@ == id);
    }
    if names_node(nodes, id) {
        let j = choose|j: int| 0 <= j < nodes.len() && #[trigger] nodes[j].id@ == id;
        assert(node_among(sorted, sorted.len() as int, nodes[j]));
        let i = choose|i: int| 0 <= i < sorted.len() && same_node(sorted[i], nodes[j]);
        assert(sorted[i].id@ == id);
    }
}

fn find_node(nodes: &Vec<FlowNode>, id: &NodeId) -> (r: Option<usize>)
    ensures
        r matches Some(i) ==> i < nodes@.len() && nodes@[i as int].id@ == id@,
        r is None <==> !names_node(nodes@, id@),
{
    let mut i: usize = 0;
    while i < nodes.len()
        invariant
            i <= nodes@.len(),
            forall|j: int| 0 <= j < i ==> nodes@[j].id@ != id@,
        decreases nodes@.len() - i,
    {
        if nodes[i].id.compare(id) == 0 {
            return Some(i);
        }
        i = i + 1;
    }
    None
}

/// Unresolved edge identities strictly increase along the sequence.
pub open spec fn unresolved_sorted(edges: Seq<UnresolvedFlowEdge>) -> bool {
    forall|i: int, j: int| 0 <= i < j < edges.len() ==> key_lt(#[trigger] edges[i].id@, #[trigger] edges[j].id@)
}

/// Partial arrangement: the first `k` inputs, sorted, with no repeated identity.
spec fn node_prefix_arranged(out: Seq<FlowNode>, nodes: Seq<FlowNode>, k: int) -> bool {
    &&& 0 <= k <= nodes.len()
    &&& out.len() == k
    &&& nodes_sorted(out)
    &&& forall|i: int| 0 <= i < out.len() ==> #[trigger] node_among(nodes, k, out[i])
    &&& forall|j: int| 0 <= j < k ==> #[trigger] node_among(out, out.len() as int, nodes[j])
    &&& forall|j1: int, j2: int| 0 <= j1 < j2 < k ==> #[trigger] nodes[j1].id@ != #[trigger] nodes[j2].id@
}

spec fn edge_prefix_arranged(out: Seq<UnresolvedFlowEdge>, edges: Seq<UnresolvedFlowEdge>, k: int) -> bool {
    &&& 0 <= k <= edges.len()
    &&& out.len() == k
    &&& unresolved_sorted(out)
    &&& forall|i: int| 0 <= i < out.len() ==> #[trigger] unresolved_among(edges, k, out[i])
    &&& forall|j: int| 0 <= j < k ==> #[trigger] unresolved_among(out, out.len() as int, edges[j])
    &&& forall|j1: int, j2: int| 0 <= j1 < j2 < k ==> #[trigger] edges[j1].id@ != #[trigger] edges[j2].id@
}

proof fn lemma_insert_node(before: Seq<FlowNode>, p: int, y: FlowNode, nodes: Seq<FlowNode>, k: int)
    requires
        node_prefix_arranged(before, nodes, k),
        k < nodes.len(),
        0 <= p <= before.len(),
        same_node(y, nodes[k]),
        forall|a: int| 0 <= a < p ==> key_lt(#[trigger] before[a].id@, y.id@),
        p < before.len() ==> key_lt(y.id@, before[p].id@),
    ensures
        node_prefix_arranged(before.insert(p, y), nodes, k + 1),
{
    let out = before.insert(p, y);
    assert forall|a: int, b: int| 0 <= a < b < out.len() implies key_lt(#[trigger] out[a].id@, #[trigger] out[b].id@) by {
        if b == p {
            assert(out[a] == before[a]);
        } else if a == p {
            assert(out[b] == before[b - 1]);
            if b - 1 > p {
                assert(key_lt(before[p].id@, before[b - 1].id@));
                lemma_key_lt_transitive(y.id@, before[p].id@, before[b - 1].id@);
            }
        } else if a < p && b < p {
            assert(out[a] == before[a]);
            assert(out[b] == before[b]);
        } else if a < p {
            assert(out[a] == before[a]);
            assert(out[b] == before[b - 1]);
        } else {
            assert(out[a] == before[a - 1]);
            assert(out[b] == before[b - 1]);
        }
    }
    assert forall|i: int| 0 <= i < out.len() implies #[trigger] node_among(nodes, k + 1, out[i]) by {
        if i == p {
            assert(same_node(nodes[k], out[i]));
        } else {
            let q = if i < p { i } else { i - 1 };
            assert(out[i] == before[q]);
            assert(node_among(nodes, k, before[q]));
            let j = choose|j: int| 0 <= j < k && same_node(nodes[j], before[q]);
            assert(same_node(nodes[j], out[i]));
        }
    }
    assert forall|j: int| 0 <= j < k + 1 implies #[trigger] node_among(out, out.len() as int, nodes[j]) by {
        if j == k {
            assert(same_node(out[p], nodes[j]));
        } else {
            assert(node_among(before, before.len() as int, nodes[j]));
            let i = choose|i: int| 0 <= i < before.len() && same_node(before[i], nodes[j]);
            let q = if i < p { i } else { i + 1 };
            assert(out[q] == before[i]);
            assert(same_node(out[q], nodes[j]));
        }
    }
    assert forall|j1: int, j2: int| 0 <= j1 < j2 < k + 1 implies #[trigger] nodes[j1].id@ != #[trigger] nodes[j2].id@ by {
        if j2 == k {
            assert(node_among(before, before.len() as int, nodes[j1]));
            let i = choose|i: int| 0 <= i < before.len() && same_node(before[i], nodes[j1]);
            if i < p {
                lemma_key_lt_irreflexive(y.id@);
            } else {
                if i > p {
                    assert(key_lt(before[p].id@, before[i].id@));
                    lemma_key_lt_transitive(y.id@, before[p].id@, before[i].id@);
                }
                lemma_key_lt_irreflexive(y.id@);
            }
        }
    }
}

proof fn lemma_insert_edge(before: Seq<UnresolvedFlowEdge>, p: int, y: UnresolvedFlowEdge, edges: Seq<UnresolvedFlowEdge>, k: int)
    requires
        edge_prefix_arranged(before, edges, k),
        k < edges.len(),
        0 <= p <= before.len(),
        same_unresolved(y, edges[k]),
        forall|a: int| 0 <= a < p ==> key_lt(#[trigger] before[a].id@, y.id@),
        p < before.len() ==> key_lt(y.id@, before[p].id@),
    ensures
        edge_prefix_arranged(before.insert(p, y), edges, k + 1),
{
    let out = before.insert(p, y);
    assert forall|a: int, b: int| 0 <= a < b < out.len() implies key_lt(#[trigger] out[a].id@, #[trigger] out[b].id@) by {
        if b == p {
            assert(out[a] == before[a]);
        } else if a == p {
            assert(out[b] == before[b - 1]);
            if b - 1 > p {
                assert(key_lt(before[p].id@, before[b - 1].id@));
                lemma_key_lt_transitive(y.id@, before[p].id@, before[b - 1].id@);
            }
        } else if a < p && b < p {
            assert(out[a] == before[a]);
            assert(out[b] == before[b]);
        } else if a < p {
            assert(out[a] == before[a]);
            assert(out[b] == before[b - 1]);
        } else {
            assert(out[a] == before[a - 1]);
            assert(out[b] == before[b - 1]);
        }
    }
    assert forall|i: int| 0 <= i < out.len() implies #[trigger] unresolved_among(edges, k + 1, out[i]) by {
        if i == p {
            assert(same_unresolved(edges[k], out[i]));
        } else {
            let q = if i < p { i } else { i - 1 };
            assert(out[i] == before[q]);
            assert(unresolved_among(edges, k, before[q]));
            let j = choose|j: int| 0 <= j < k && same_unresolved(edges[j], before[q]);
            assert(same_unresolved(edges[j], out[i]));
        }
    }
    assert forall|j: int| 0 <= j < k + 1 implies #[trigger] unresolved_among(out, out.len() as int, edges[j]) by {
        if j == k {
            assert(same_unresolved(out[p], edges[j]));
        } else {
            assert(unresolved_among(before, before.len() as int, edges[j]));
            let i = choose|i: int| 0 <= i < before.len() && same_unresolved(before[i], edges[j]);
            let q = if i < p { i } else { i + 1 };
            assert(out[q] == before[i]);
            assert(same_unresolved(out[q], edges[j]));
        }
    }
    assert forall|j1: int, j2: int| 0 <= j1 < j2 < k + 1 implies #[trigger] edges[j1].id@ != #[trigger] edges[j2].id@ by {
        if j2 == k {
            assert(unresolved_among(before, before.len() as int, edges[j1]));
            let i = choose|i: int| 0 <= i < before.len() && same_unresolved(before[i], edges[j1]);
            if i < p {
                lemma_key_lt_irreflexive(y.id@);
            } else {
                if i > p {
                    assert(key_lt(before[p].id@, before[i].id@));
                    lemma_key_lt_transitive(y.id@, before[p].id@, before[i].id@);
                }
                lemma_key_lt_irreflexive(y.id@);
            }
        }
    }
}

fn sort_nodes(nodes: &Vec<FlowNode>) -> (r: Option<Vec<FlowNode>>)
    ensures
        r matches Some(s) ==> node_arrangement(s@, nodes@),
        r is None ==> has_duplicate_node(nodes@),
        r is Some ==> !has_duplicate_node(nodes@),
{
    let mut out: Vec<FlowNode> = Vec::new();
    let mut k: usize = 0;
    while k < nodes.len()
        invariant
            node_prefix_arranged(out@, nodes@, k as int),
        decreases nodes@.len() - k,
    {
        let x = &nodes[k];
        let mut p: usize = 0;
        let mut c: i8 = 1;
        while p < out.len()
            invariant_except_break
                p <= out@.len(),
                forall|a: int| 0 <= a < p ==> key_lt(#[trigger] out@[a].id@, x.id@),
            ensures
                p <= out@.len(),
                forall|a: int| 0 <= a < p ==> key_lt(#[trigger] out@[a].id@, x.id@),
                p < out@.len() ==> (c == 0 <==> x.id@ == out@[p as int].id@),
                p < out@.len() ==> c <= 0,
                p < out@.len() && c < 0 ==> key_lt(x.id@, out@[p as int].id@),
            decreases out@.len() - p,
        {
            c = x.id.compare(&out[p].id);
            if c <= 0 {
                break;
            }
            p = p + 1;
        }
        if p < out.len() && c == 0 {
            proof {
                assert(node_among(nodes@, k as int, out@[p as int]));
                let j = choose|j: int| 0 <= j < k && same_node(nodes@[j], out@[p as int]);
                assert(nodes@[j].id@ == nodes@[k as int].id@);
            }
            return None;
        }
        let ghost before = out@;
        let y = x.duplicate();
        out.insert(p, y);
        proof {
            lemma_insert_node(before, p as int, y, nodes@, k as int);
        }
        k = k + 1;
    }
    proof {
        assert forall|i: int, j: int| 0 <= i < j < nodes@.len() && #[trigger] nodes@[i].id@ == #[trigger] nodes@[j].id@ implies false by {}
    }
    Some(out)
}

fn sort_edges(edges: &Vec<UnresolvedFlowEdge>) -> (r: Option<Vec<UnresolvedFlowEdge>>)
    ensures
        r matches Some(s) ==> edge_arrangement(s@, edges@),
        r is None ==> has_duplicate_edge(edges@),
        r is Some ==> !has_duplicate_edge(edges@),
{
    let mut out: Vec<UnresolvedFlowEdge> = Vec::new();
    let mut k: usize = 0;
    while k < edges.len()
        invariant
            edge_prefix_arranged(out@, edges@, k as int),
        decreases edges@.len() - k,
    {
        let x = &edges[k];
        let mut p: usize = 0;
        let mut c: i8 = 1;
        while p < out.len()
            invariant_except_break
                p <= out@.len(),
                forall|a: int| 0 <= a < p ==> key_lt(#[trigger] out@[a].id@, x.id@),
            ensures
                p <= out@.len(),
                forall|a: int| 0 <= a < p ==> key_lt(#[trigger] out@[a].id@, x.id@),
                p < out@.len() ==> (c == 0 <==> x.id@ == out@[p as int].id@),
                p < out@.len() ==> c <= 0,
                p < out@.len() && c < 0 ==> key_lt(x.id@, out@[p as int].id@),
            decreases out@.len() - p,
        {
            c = x.id.compare(&out[p].id);
            if c <= 0 {
                break;
            }
            p = p + 1;
        }
        if p < out.len() && c == 0 {
            proof {
                assert(unresolved_among(edges@, k as int, out@[p as int]));
                let j = choose|j: int| 0 <= j < k && same_unresolved(edges@[j], out@[p as int]);
                assert(edges@[j].id@ == edges@[k as int].id@);
            }
            return None;
        }
        let ghost before = out@;
        let y = x.duplicate();
        out.insert(p, y);
        proof {
            lemma_insert_edge(before, p as int, y, edges@, k as int);
        }
        k = k + 1;
    }
    proof {
        assert forall|i: int, j: int| 0 <= i < j < edges@.len() && #[trigger] edges@[i].id@ == #[trigger] edges@[j].id@ implies false by {}
    }
    Some(out)
}

} // verus!
