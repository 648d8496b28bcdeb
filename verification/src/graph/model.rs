//! The graph: nodes, edges and the incidence lists that tie them together.

use std::collections::HashMap;
use vstd::prelude::*;

use crate::seqs::without;
use crate::spatial::grid::ChunkCoord;

verus! {

broadcast use vstd::std_specs::hash::group_hash_axioms;

#[derive(Clone, Copy, Debug, PartialEq, Eq, Hash, Structural)]
pub struct NodeId(pub u64);

#[derive(Clone, Copy, Debug, PartialEq, Eq, Hash, Structural)]
pub struct EdgeId(pub u64);

/// A 2D vector of two `f32` values, each held as its IEEE-754 bit pattern.
#[derive(Clone, Copy, Debug, PartialEq, Eq, Structural)]
pub struct Vec2Bits {
    pub x: u32,
    pub y: u32,
}

/// An sRGBA colour of four `f32` channels, each held as its IEEE-754 bit pattern.
#[derive(Clone, Copy, Debug, PartialEq, Eq, Structural)]
pub struct ColorBits {
    pub red: u32,
    pub green: u32,
    pub blue: u32,
    pub alpha: u32,
}

/// Width and height of a node's rectangle, in world units.
#[derive(Clone, Copy, Debug, PartialEq, Eq, Structural)]
pub struct TextSize {
    pub width: u128,
    pub height: u128,
}

/// Everything the graph keeps about a node. `chunk` is the grid chunk that
/// contains `position`; whoever sets one sets the other.
pub struct NodeData {
    pub position: Vec2Bits,
    pub chunk: ChunkCoord,
    pub name: String,
    pub data: String,
    pub color: ColorBits,
    pub size: TextSize,
    pub entity: Option<u64>,
}

#[derive(Clone, Copy, Debug, PartialEq, Eq, Structural)]
pub struct EdgeData {
    pub source: NodeId,
    pub target: NodeId,
    pub color: ColorBits,
}

/// The end of `e` that is not `n` (the target when `n` is the source).
pub open spec fn other_end(e: EdgeData, n: NodeId) -> NodeId {
    if e.source == n {
        e.target
    } else {
        e.source
    }
}

/// Removes every occurrence of `x` from `v`, keeping the order of the rest.
pub fn remove_node_id(v: &mut Vec<NodeId>, x: NodeId)
    ensures
        final(v)@ == without(old(v)@, x),
{
    let ghost orig = v@;
    let mut out: Vec<NodeId> = Vec::new();
    let mut i: usize = 0;
    while i < v.len()
        invariant
            v@ == orig,
            i <= v.len(),
            out@ == without(orig.subrange(0, i as int), x),
        decreases v.len() - i,
    {
        let y = v[i];
        assert(orig.subrange(0, i + 1).drop_last() =~= orig.subrange(0, i as int));
        if y != x {
            out.push(y);
        }
        i = i + 1;
    }
    assert(orig.subrange(0, orig.len() as int) =~= orig);
    *v = out;
}

/// Removes every occurrence of `x` from `v`, keeping the order of the rest.
pub fn remove_edge_id(v: &mut Vec<EdgeId>, x: EdgeId)
    ensures
        final(v)@ == without(old(v)@, x),
{
    let ghost orig = v@;
    let mut out: Vec<EdgeId> = Vec::new();
    let mut i: usize = 0;
    while i < v.len()
        invariant
            v@ == orig,
            i <= v.len(),
            out@ == without(orig.subrange(0, i as int), x),
        decreases v.len() - i,
    {
        let y = v[i];
        assert(orig.subrange(0, i + 1).drop_last() =~= orig.subrange(0, i as int));
        if y != x {
            out.push(y);
        }
        i = i + 1;
    }
    assert(orig.subrange(0, orig.len() as int) =~= orig);
    *v = out;
}


/// `s` is strictly increasing by id.
pub open spec fn ascending_ids(s: Seq<NodeId>) -> bool {
    forall|i: int, j: int| 0 <= i < j < s.len() ==> s[i].0 < s[j].0
}

/// Adds `x` to the ascending vector `v` unless it is already there.
pub fn insert_ascending(v: &mut Vec<NodeId>, x: NodeId)
    requires
        ascending_ids(old(v)@),
    ensures
        ascending_ids(final(v)@),
        forall|y: NodeId| final(v)@.contains(y) <==> (old(v)@.contains(y) || y == x),
{
    let mut i: usize = 0;
    while i < v.len() && v[i].0 < x.0
        invariant
            v@ == old(v)@,
            ascending_ids(old(v)@),
            i <= v.len(),
            forall|j: int| 0 <= j < i ==> v@[j].0 < x.0,
        decreases v.len() - i,
    {
        i = i + 1;
    }
    if i < v.len() && v[i].0 == x.0 {
        assert(v@[i as int] == x);
        assert(v@.contains(x));
        return;
    }
    let ghost before = v@;
    assert(before == old(v)@);
    v.insert(i, x);
    assert forall|a: int, b: int| 0 <= a < b < v@.len() implies v@[a].0 < v@[b].0 by {
        if b < i {
        } else if b == i {
        } else if a < i {
            assert(v@[b] == before[b - 1]);
            assert(before[i as int].0 > x.0);
            assert(before[i as int].0 <= before[b - 1].0);
        } else if a == i {
            assert(v@[b] == before[b - 1]);
            assert(before[i as int].0 > x.0);
        } else {
            assert(v@[a] == before[a - 1]);
            assert(v@[b] == before[b - 1]);
        }
    }
    assert forall|y: NodeId| v@.contains(y) <==> (before.contains(y) || y == x) by {
        if v@.contains(y) {
            let k = choose|k: int| 0 <= k < v@.len() && v@[k] == y;
            if k < i {
                assert(before[k] == y);
            } else if k > i {
                assert(before[k - 1] == y);
            }
        }
        if before.contains(y) {
            let k = choose|k: int| 0 <= k < before.len() && before[k] == y;
            if k < i {
                assert(v@[k] == y);
            } else {
                assert(v@[k + 1] == y);
            }
        }
        if y == x {
            assert(v@[i as int] == y);
        }
    }
    assert(forall|y: NodeId| v@.contains(y) <==> (old(v)@.contains(y) || y == x));
}

/// Edges listed as incident to node `n` in `adj` (empty where `n` has no list).
pub open spec fn incident_in(adj: Map<u64, Seq<EdgeId>>, n: u64) -> Seq<EdgeId> {
    if adj.contains_key(n) {
        adj[n]
    } else {
        Seq::empty()
    }
}

/// The `j`-th incident edge of `n` exists and leads to `m`.
pub open spec fn links_to(
    edges: Map<u64, EdgeData>,
    adj: Map<u64, Seq<EdgeId>>,
    n: NodeId,
    j: int,
    m: NodeId,
) -> bool {
    &&& 0 <= j < incident_in(adj, n.0).len()
    &&& edges.contains_key(incident_in(adj, n.0)[j].0)
    &&& other_end(edges[incident_in(adj, n.0)[j].0], n) == m
}

/// `m` is a neighbour of `n` through one of `n`'s incident edges.
pub open spec fn neighbor_in(
    edges: Map<u64, EdgeData>,
    adj: Map<u64, Seq<EdgeId>>,
    n: NodeId,
    m: NodeId,
) -> bool {
    exists|j: int| links_to(edges, adj, n, j, m)
}

/// Edge `d` has `n` as one of its ends.
pub open spec fn touches(d: EdgeData, n: u64) -> bool {
    d.source.0 == n || d.target.0 == n
}

/// Well-formedness: every node has an incidence list and nothing else does;
/// every edge joins two nodes, has an id below the edge counter and is listed
/// at both ends; every listed edge exists and touches the node that lists it.
pub open spec fn graph_wf(
    nodes: Map<u64, NodeData>,
    edges: Map<u64, EdgeData>,
    adj: Map<u64, Seq<EdgeId>>,
    next_edge: u64,
) -> bool {
    &&& adj.dom() == nodes.dom()
    &&& forall|e: u64| #[trigger] edges.contains_key(e) ==> {
        let d = edges[e];
        &&& e < next_edge
        &&& nodes.contains_key(d.source.0)
        &&& nodes.contains_key(d.target.0)
        &&& incident_in(adj, d.source.0).contains(EdgeId(e))
        &&& incident_in(adj, d.target.0).contains(EdgeId(e))
    }
    &&& forall|n: u64, i: int|
        #![trigger incident_in(adj, n)[i]]
        0 <= i < incident_in(adj, n).len() ==> {
            let e = incident_in(adj, n)[i];
            &&& edges.contains_key(e.0)
            &&& touches(edges[e.0], n)
        }
}

/// The graph. `adjacency` lists, for each node, the edges incident to it
/// (a self-loop is listed twice). Ids come from two counters.
pub struct GraphData {
    pub nodes: HashMap<u64, NodeData>,
    pub edges: HashMap<u64, EdgeData>,
    pub adjacency: HashMap<u64, Vec<EdgeId>>,
    /// The id the next call of `next_node_id` hands out.
    pub next_node_id: u64,
    /// The id the next call of `next_edge_id` hands out.
    pub next_edge_id: u64,
}

impl GraphData {
    pub open spec fn node_counter(&self) -> u64 {
        self.next_node_id
    }

    pub open spec fn edge_counter(&self) -> u64 {
        self.next_edge_id
    }

    /// The incidence lists as sequences.
    pub open spec fn adj_view(&self) -> Map<u64, Seq<EdgeId>> {
        self.adjacency@.map_values(|v: Vec<EdgeId>| v@)
    }

    /// Edges listed as incident to node `n` (empty where `n` has no list).
    pub open spec fn incident(&self, n: u64) -> Seq<EdgeId> {
        incident_in(self.adj_view(), n)
    }

    /// `m` is a neighbour of `n` through one of `n`'s incident edges.
    pub open spec fn is_neighbor(&self, n: NodeId, m: NodeId) -> bool {
        neighbor_in(self.edges@, self.adj_view(), n, m)
    }

    pub open spec fn wf(&self) -> bool {
        graph_wf(self.nodes@, self.edges@, self.adj_view(), self.next_edge_id)
    }

    pub fn new() -> (g: GraphData)
        ensures
            g.wf(),
            g.nodes@ == Map::<u64, NodeData>::empty(),
            g.edges@ == Map::<u64, EdgeData>::empty(),
            g.adj_view() == Map::<u64, Seq<EdgeId>>::empty(),
            g.node_counter() == 0,
            g.edge_counter() == 0,
    {
        let g = GraphData {
            nodes: HashMap::new(),
            edges: HashMap::new(),
            adjacency: HashMap::new(),
            next_node_id: 0,
            next_edge_id: 0,
        };
        assert(g.adj_view() =~= Map::<u64, Seq<EdgeId>>::empty());
        g
    }

    /// Hands out the current node counter and advances it.
    pub fn next_node_id(&mut self) -> (id: NodeId)
        requires
            old(self).node_counter() < u64::MAX,
        ensures
            id.0 == old(self).node_counter(),
            final(self).node_counter() == old(self).node_counter() + 1,
            final(self).edge_counter() == old(self).edge_counter(),
            final(self).nodes == old(self).nodes,
            final(self).edges == old(self).edges,
            final(self).adjacency == old(self).adjacency,
    {
        let id = NodeId(self.next_node_id);
        self.next_node_id = self.next_node_id + 1;
        id
    }

    /// Hands out the current edge counter and advances it.
    pub fn next_edge_id(&mut self) -> (id: EdgeId)
        requires
            old(self).edge_counter() < u64::MAX,
        ensures
            id.0 == old(self).edge_counter(),
            final(self).edge_counter() == old(self).edge_counter() + 1,
            final(self).node_counter() == old(self).node_counter(),
            final(self).nodes == old(self).nodes,
            final(self).edges == old(self).edges,
            final(self).adjacency == old(self).adjacency,
    {
        let id = EdgeId(self.next_edge_id);
        self.next_edge_id = self.next_edge_id + 1;
        id
    }

    pub fn node_count(&self) -> (n: usize)
        ensures
            n == self.nodes@.len(),
    {
        self.nodes.len()
    }

    pub fn edge_count(&self) -> (n: usize)
        ensures
            n == self.edges@.len(),
    {
        self.edges.len()
    }

    /// Moves node `id` to `position`, which lies in `chunk`; false (and no
    /// change) where the node is missing. The grid is brought in line later
    /// by `sync_node_chunk`.
    pub fn set_position(&mut self, id: NodeId, position: Vec2Bits, chunk: ChunkCoord) -> (found: bool)
        ensures
            found == old(self).nodes@.contains_key(id.0),
            found ==> final(self).nodes@ == old(self).nodes@.insert(
                id.0,
                NodeData { position, chunk, ..old(self).nodes@[id.0] },
            ),
            !found ==> final(self).nodes@ == old(self).nodes@,
            final(self).edges == old(self).edges,
            final(self).adjacency == old(self).adjacency,
            final(self).next_node_id == old(self).next_node_id,
            final(self).next_edge_id == old(self).next_edge_id,
            old(self).wf() ==> final(self).wf(),
    {
        match self.nodes.remove(&id.0) {
            Some(d) => {
                let ghost od = d;
                let nd = NodeData { position, chunk, ..d };
                self.nodes.insert(id.0, nd);
                assert(self.nodes@ =~= old(self).nodes@.insert(id.0, NodeData { position, chunk, ..od }));
                assert(self.nodes@.dom() =~= old(self).nodes@.dom());
                true
            },
            None => {
                assert(self.nodes@ =~= old(self).nodes@);
                false
            },
        }
    }

    /// Neighbour node ids from incident edges (ascending, each once).
    pub fn neighbor_node_ids(&self, node_id: NodeId) -> (out: Vec<NodeId>)
        ensures
            ascending_ids(out@),
            forall|m: NodeId| out@.contains(m) <==> self.is_neighbor(node_id, m),
    {
        let mut out: Vec<NodeId> = Vec::new();
        match self.adjacency.get(&node_id.0) {
            Some(edge_ids) => {
                let n = edge_ids.len();
                let mut i: usize = 0;
                while i < n
                    invariant
                        n == edge_ids@.len(),
                        edge_ids@ == self.incident(node_id.0),
                        i <= n,
                        ascending_ids(out@),
                        forall|m: NodeId|
                            out@.contains(m) <==> exists|j: int| 0 <= j < i && #[trigger] links_to(self.edges@, self.adj_view(), node_id, j, m),
                    decreases n - i,
                {
                    let eid = edge_ids[i];
                    match self.edges.get(&eid.0) {
                        Some(edge) => {
                            let other = if edge.source == node_id {
                                edge.target
                            } else {
                                edge.source
                            };
                            insert_ascending(&mut out, other);
                            assert(links_to(self.edges@, self.adj_view(), node_id, i as int, other));
                        },
                        None => {},
                    }
                    assert forall|m: NodeId|
                        out@.contains(m) <==> exists|j: int| 0 <= j < i + 1 && #[trigger] links_to(self.edges@, self.adj_view(), node_id, j, m) by {
                        if exists|j: int| 0 <= j < i + 1 && #[trigger] links_to(self.edges@, self.adj_view(), node_id, j, m) {
                            let j = choose|j: int| 0 <= j < i + 1 && #[trigger] links_to(self.edges@, self.adj_view(), node_id, j, m);
                            if j < i {
                                assert(exists|j: int| 0 <= j < i && #[trigger] links_to(self.edges@, self.adj_view(), node_id, j, m));
                            }
                        }
                    }
                    i = i + 1;
                }
            },
            None => {},
        }
        out
    }
}

} // verus!
